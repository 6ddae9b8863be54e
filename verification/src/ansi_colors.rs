use vstd::prelude::*;

verus! {

/// Text shown in green on an ANSI terminal.
pub struct Green(pub &'static str);

/// Text shown in red on an ANSI terminal.
pub struct Red(pub &'static str);

/// Text shown in bright yellow on an ANSI terminal.
pub struct Yellow(pub &'static str);

/// `text` between the escape sequence that selects `color` and the one that
/// resets the attributes.
pub open spec fn colored(color: Seq<char>, text: Seq<char>) -> Seq<char> {
    "\x1B["@ + color + "m"@ + text + "\x1B[0m"@
}

/// Builds `text` wrapped in the escape sequences for `color`.
fn paint(color: &str, text: &str) -> (r: String)
    ensures
        r@ == colored(color@, text@),
{
    let mut r = String::from_str("\x1B[");
    r.append(color);
    r.append("m");
    r.append(text);
    r.append("\x1B[0m");
    r
}

impl Green {
    /// The text with the escape sequences that make it green.
    pub fn to_string(&self) -> (r: String)
        ensures
            r@ == colored("32"@, self.0@),
    {
        paint("32", self.0)
    }
}

impl Red {
    /// The text with the escape sequences that make it red.
    pub fn to_string(&self) -> (r: String)
        ensures
            r@ == colored("31"@, self.0@),
    {
        paint("31", self.0)
    }
}

impl Yellow {
    /// The text with the escape sequences that make it bright yellow.
    pub fn to_string(&self) -> (r: String)
        ensures
            r@ == colored("93"@, self.0@),
    {
        paint("93", self.0)
    }
}

} // verus!
