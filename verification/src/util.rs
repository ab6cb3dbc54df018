//! A small combinator on copy-on-write strings.
use std::borrow::Cow;
use vstd::prelude::*;

verus! {

/// Applies a function that may or may not make a new value, and keeps the
/// old value where it made none.
pub trait Bind<'a> {
    type B: 'a + ToOwned + ?Sized;

    fn bind<F>(self, f: F) -> (r: Cow<'a, Self::B>) where F: FnOnce(&Self::B) -> Cow<Self::B>
        requires
            forall|s: &Self::B| call_requires(f, (s,)),
    ;
}

impl<'a> Bind<'a> for Cow<'a, str> {
    type B = str;

    /// On a borrowed string the result is what `f` gives. On an owned one
    /// the result is owned too: what `f` made, or the string itself where
    /// `f` handed back a borrow.
    fn bind<F>(self, f: F) -> (r: Cow<'a, str>) where F: FnOnce(&str) -> Cow<str>
        ensures
            match self {
                Cow::Borrowed(s) => call_ensures(f, (s,), r),
                Cow::Owned(s) => exists|arg: &str, made: Cow<str>|
                    arg@ == s@ && #[trigger] call_ensures(f, (arg,), made) && r is Owned && r@ == (
                    if made is Owned {
                        made@
                    } else {
                        s@
                    }),
            },
    {
        match self {
            Cow::Borrowed(s) => f(s),
            Cow::Owned(s) => {
                let made = f(s.as_str());
                match made {
                    Cow::Borrowed(_) => Cow::Owned(s),
                    Cow::Owned(t) => Cow::Owned(t),
                }
            },
        }
    }
}

} // verus!
