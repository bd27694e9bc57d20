//! Translation lookup at run time, against one loaded locale.
//!
//! The locale is an explicit handle the caller constructs at startup and
//! threads through call sites; no ambient state is involved. Lookup mints the
//! same flat key the scanner mints, so a catalog reconciled from the scan
//! answers exactly the calls the scan saw.
use vstd::prelude::*;
use vstd::string::*;

use crate::codec::sp;
use crate::strmap::StrMap;

verus! {

/// A loaded locale: its normalized tag and its translation table.
pub struct Locale {
    pub name: String,
    pub translations: StrMap,
}

impl Locale {
    pub open spec fn wf(&self) -> bool {
        self.translations.wf()
    }
}

/// What translation a locale gives for a prefix and a content: the text bound
/// to the minted key, or the content itself when no locale is set or the key
/// is untranslated.
pub open spec fn spec_translate(
    locale: Option<Locale>,
    prefix: Seq<char>,
    content: Seq<char>,
) -> Seq<char> {
    match locale {
        None => content,
        Some(l) => {
            let key = prefix + sp() + content;
            if l.translations@.dom().contains(key) {
                l.translations@[key]
            } else {
                content
            }
        },
    }
}

/// Translates content with the locale setting and the given prefix: the
/// translation bound to the key the prefix and content mint, or the content
/// unchanged when no locale is set or nothing is bound.
pub fn translate<'a>(locale: Option<&'a Locale>, prefix: &str, content: &'a str) -> (r: &'a str)
    requires
        match locale {
            Some(l) => l.wf(),
            None => true,
        },
    ensures
        r@ == spec_translate(
            match locale {
                Some(l) => Some(*l),
                None => None,
            },
            prefix@,
            content@,
        ),
{
    let l = match locale {
        Some(l) => l,
        None => {
            return content;
        },
    };
    let mut key = prefix.to_owned();
    key.append(" ");
    key.append(content);
    proof {
        reveal_strlit(" ");
        assert(key@ =~= prefix@ + sp() + content@);
    }
    match l.translations.get(&key) {
        Some(tr) => tr.as_str(),
        None => content,
    }
}

} // verus!
