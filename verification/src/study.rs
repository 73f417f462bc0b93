use vstd::prelude::*;

verus! {

/// Adds two numbers.
pub fn add(left: usize, right: usize) -> (sum: usize)
    requires
        left + right <= usize::MAX,
    ensures
        sum == left + right,
{
    left + right
}

/// Adds two to a number.
pub fn add_two(left: i32) -> (sum: i32)
    requires
        left + 2 <= i32::MAX,
    ensures
        sum == left + 2,
{
    left + 2
}

/// The greeting for `name`: `"Hello {name}!"`.
pub open spec fn spec_greeting(name: Seq<char>) -> Seq<char> {
    "Hello "@ + name + "!"@
}

/// Greets `name`: `"Hello {name}!"`.
pub fn greeting(name: &str) -> (res: String)
    ensures
        res@ == spec_greeting(name@),
        res@ == "Hello "@ + name@ + "!"@,
{
    let res = String::from_str("Hello ").concat(name).concat("!");
    res
}

/// A guess between 1 and 100.
pub struct Guess {
    _value: i32,
}

impl Guess {
    /// The guessed number.
    pub closed spec fn value(&self) -> i32 {
        self._value
    }

    /// A guess is between 1 and 100.
    pub closed spec fn wf(&self) -> bool {
        1 <= self._value <= 100
    }

    /// Makes a guess of `value`, which must lie between 1 and 100.
    pub fn new(value: i32) -> (g: Guess)
        requires
            1 <= value <= 100,
        ensures
            g.wf(),
            g.value() == value,
    {
        Guess { _value: value }
    }
}

/// The reply to a greeting from another language: the name it sent, followed by
/// `" Rust say: Hello Go "`.
pub fn rustdemo_reply(name: &str) -> (res: String)
    ensures
        res@ == name@ + " Rust say: Hello Go "@,
{
    String::from_str(name).concat(" Rust say: Hello Go ")
}

/// A greeting contains the name it greets, right after `"Hello "`.
pub proof fn greeting_contains_name(name: Seq<char>)
    ensures
        crate::minigrep::occurs_at(spec_greeting(name), name, 6),
        crate::minigrep::spec_contains(spec_greeting(name), name),
{
    reveal_strlit("Hello ");
    reveal_strlit("!");
    assert(spec_greeting(name).subrange(6, 6 + name.len() as int) =~= name);
    assert(crate::minigrep::occurs_at(spec_greeting(name), name, 6));
}

/// For every name, the greeting is `"Hello "`, then the name, then `'!'`: seven
/// characters more than the name.
pub proof fn greeting_is_hello_name_bang(name: Seq<char>)
    ensures
        spec_greeting(name).len() == name.len() + 7,
        spec_greeting(name).take(6) == "Hello "@,
        spec_greeting(name).subrange(6, 6 + name.len() as int) == name,
        spec_greeting(name).last() == '!',
{
    reveal_strlit("Hello ");
    reveal_strlit("!");
    assert(spec_greeting(name).take(6) =~= "Hello "@);
    assert(spec_greeting(name).subrange(6, 6 + name.len() as int) =~= name);
}

} // verus!
