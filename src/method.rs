use vstd::prelude::*;
use vstd::string::*;

verus! {

/// The request methods this client sends: GET and POST only.
#[derive(Debug, Clone, Copy, PartialEq, Eq, Structural)]
pub enum Method {
    Get,
    Post,
}

/// The token of a method on the request line.
pub open spec fn method_token(m: Method) -> Seq<char> {
    match m {
        Method::Get => "GET"@,
        Method::Post => "POST"@,
    }
}

/// Whether two strings hold the same characters.
fn same_text(a: &str, b: &str) -> (r: bool)
    ensures
        r == (a@ == b@),
{
    let n = a.unicode_len();
    if n != b.unicode_len() {
        return false;
    }
    let mut i: usize = 0;
    while i < n
        invariant
            n == a@.len() == b@.len(),
            i <= n,
            forall|j: int| 0 <= j < i ==> a@[j] == b@[j],
        decreases n - i,
    {
        if a.get_char(i) != b.get_char(i) {
            return false;
        }
        i += 1;
    }
    assert(a@ =~= b@);
    true
}

impl Method {
    /// The method's token.
    pub fn as_str(&self) -> (r: &'static str)
        ensures
            r@ == method_token(*self),
    {
        match self {
            Method::Get => "GET",
            Method::Post => "POST",
        }
    }

    /// The method's token as an owned string.
    pub fn to_string(&self) -> (r: String)
        ensures
            r@ == method_token(*self),
    {
        String::from_str(self.as_str())
    }

    /// The method that a token names; tokens are case-sensitive.
    pub fn from_str(s: &str) -> (r: Option<Method>)
        ensures
            r matches Some(m) ==> method_token(m) == s@,
            r is None ==> s@ != method_token(Method::Get) && s@ != method_token(Method::Post),
    {
        if same_text(s, "GET") {
            Some(Method::Get)
        } else if same_text(s, "POST") {
            Some(Method::Post)
        } else {
            None
        }
    }
}

} // verus!
