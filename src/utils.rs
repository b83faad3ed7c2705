use vstd::prelude::*;

verus! {

/// A failure to report to the user: a message, an optional prefix shown
/// before it, and the exit code.
pub struct Failure<'a, 'm> {
    pub code: i32,
    pub prefix: Option<&'m str>,
    pub message: &'a str,
}

impl<'a, 'm> Failure<'a, 'm> {
    /// A failure with message `msg`, prefix `error` and exit code 1.
    pub fn new(msg: &'a str) -> (r: Failure<'a, 'static>)
        ensures
            r.code == 1,
            r.prefix matches Some(p) && p@ == "error"@,
            r.message@ == msg@,
    {
        Failure { code: 1, prefix: Some("error"), message: msg }
    }

    /// The same failure with prefix `p`.
    pub fn prefix(self, p: &'m str) -> (r: Failure<'a, 'm>)
        ensures
            r.code == self.code,
            r.prefix matches Some(q) && q@ == p@,
            r.message@ == self.message@,
    {
        Failure { code: self.code, prefix: Some(p), message: self.message }
    }

    /// The same failure with exit code `code`.
    pub fn code(self, code: i32) -> (r: Failure<'a, 'm>)
        ensures
            r.code == code,
            r.prefix == self.prefix,
            r.message@ == self.message@,
    {
        Failure { code, prefix: self.prefix, message: self.message }
    }
}

impl<'a> From<&'a str> for Failure<'a, 'static> {
    /// A failure with message `msg`, as `Failure::new` makes it.
    fn from(msg: &'a str) -> (r: Failure<'a, 'static>) {
        Failure { code: 1, prefix: Some("error"), message: msg }
    }
}

impl<'a> vstd::std_specs::convert::FromSpecImpl<&'a str> for Failure<'a, 'static> {
    open spec fn obeys_from_spec() -> bool {
        true
    }

    open spec fn from_spec(msg: &'a str) -> Failure<'a, 'static> {
        Failure { code: 1, prefix: Some("error"), message: msg }
    }
}

} // verus!
