//! How a result is shown: the two strings, each reversed and put in upper
//! case where that is asked for, or the message that none was found.

use crate::words::push_char;
use vstd::prelude::*;
use vstd::std_specs::iter::IteratorSpec;
use vstd::string::*;

verus! {

/// The upper case of an ASCII letter; any other character is left as it is.
pub open spec fn upper(c: char) -> char {
    if 'a' <= c && c <= 'z' {
        ((c as int) - 32) as char
    } else {
        c
    }
}

/// `s` with every ASCII letter in upper case.
pub open spec fn uppercased(s: Seq<char>) -> Seq<char> {
    Seq::new(s.len(), |i: int| upper(s[i]))
}

/// `s` as it is shown: reversed first, where that is asked for, and then put
/// in upper case, where that is asked for.
pub open spec fn shown(s: Seq<char>, reverse: bool, uppercase: bool) -> Seq<char> {
    let turned = if reverse {
        s.reverse()
    } else {
        s
    };
    if uppercase {
        uppercased(turned)
    } else {
        turned
    }
}

/// The upper case of `c`.
pub fn to_ascii_uppercase(c: char) -> (res: char)
    ensures
        res == upper(c),
{
    if 'a' <= c && c <= 'z' {
        ((c as u8) - 32) as char
    } else {
        c
    }
}

/// The characters of `s`, in order.
pub fn characters(s: &String) -> (chars: Vec<char>)
    ensures
        chars@ == s@,
{
    broadcast use vstd::string::group_string_axioms;

    let mut chars: Vec<char> = Vec::new();
    let mut it = s.as_str().chars();
    loop
        invariant_except_break
            it.obeys_prophetic_iter_laws(),
            it.decrease() is Some,
            chars@ + it.remaining() == s@,
        ensures
            chars@ == s@,
        decreases it.decrease()->0,
    {
        match it.next() {
            Some(c) => {
                let ghost before = chars@;
                chars.push(c);
                assert(before.push(c) + it.remaining() =~= s@);
            },
            None => {
                assert(chars@ =~= s@);
                break ;
            },
        }
    }
    chars
}

/// `s` with its characters in reverse order.
pub fn reverse(s: &String) -> (res: String)
    ensures
        res@ == s@.reverse(),
{
    let chars = characters(s);
    let mut res = String::new();
    let mut i: usize = chars.len();
    while i > 0
        invariant
            i <= chars.len(),
            chars@ == s@,
            res@ == s@.reverse().subrange(0, chars.len() - i),
        decreases i,
    {
        i = i - 1;
        let ghost before = res@;
        push_char(&mut res, chars[i]);
        assert(before.push(chars@[i as int]) =~= s@.reverse().subrange(0, chars.len() - i));
    }
    assert(res@ =~= s@.reverse());
    res
}

/// `s` with its ASCII letters in upper case.
pub fn uppercase(s: &String) -> (res: String)
    ensures
        res@ == uppercased(s@),
{
    let chars = characters(s);
    let mut res = String::new();
    let mut i: usize = 0;
    while i < chars.len()
        invariant
            i <= chars.len(),
            chars@ == s@,
            res@ == uppercased(s@).subrange(0, i as int),
        decreases chars.len() - i,
    {
        let ghost before = res@;
        push_char(&mut res, to_ascii_uppercase(chars[i]));
        assert(before.push(upper(chars@[i as int])) =~= uppercased(s@).subrange(0, i + 1));
        i = i + 1;
    }
    assert(res@ =~= uppercased(s@));
    res
}

/// `s` as it is shown.
pub fn transform(s: String, reverse_it: bool, uppercase_it: bool) -> (res: String)
    ensures
        res@ == shown(s@, reverse_it, uppercase_it),
{
    let turned = if reverse_it {
        reverse(&s)
    } else {
        s
    };
    if uppercase_it {
        uppercase(&turned)
    } else {
        turned
    }
}

/// What is printed for the outcome of a search: the two strings as they are
/// shown, on a line each, or the message that no collision was found.
pub open spec fn rendered(
    outcome: Option<(Seq<char>, Seq<char>)>,
    reverse: bool,
    uppercase: bool,
) -> Seq<char> {
    match outcome {
        Some((fi, se)) => shown(fi, reverse, uppercase) + seq!['\n'] + shown(
            se,
            reverse,
            uppercase,
        ),
        None => "Collision not found"@,
    }
}

/// The views of the two strings of an outcome.
pub open spec fn outcome_view(outcome: Option<(String, String)>) -> Option<
    (Seq<char>, Seq<char>),
> {
    match outcome {
        Some((fi, se)) => Some((fi@, se@)),
        None => None,
    }
}

/// The text to print for the outcome of a search.
pub fn render(outcome: Option<(String, String)>, reverse_it: bool, uppercase_it: bool) -> (text:
    String)
    ensures
        text@ == rendered(outcome_view(outcome), reverse_it, uppercase_it),
{
    match outcome {
        Some((fi, se)) => {
            let mut text = transform(fi, reverse_it, uppercase_it);
            let second = transform(se, reverse_it, uppercase_it);
            proof {
                reveal_strlit("\n");
                assert("\n"@ =~= seq!['\n']);
            }
            text.append("\n");
            text.append(second.as_str());
            text
        },
        None => String::from_str("Collision not found"),
    }
}

/// Reversing a string twice gives the string back.
pub proof fn lemma_reverse_twice(s: Seq<char>)
    ensures
        s.reverse().reverse() == s,
{
    assert(s.reverse().reverse() =~= s);
}

/// Putting a string in upper case twice is the same as doing it once.
pub proof fn lemma_uppercase_twice(s: Seq<char>)
    ensures
        uppercased(uppercased(s)) == uppercased(s),
{
    assert forall|i: int| 0 <= i < s.len() implies upper(upper(s[i])) == upper(s[i]) by {
        lemma_upper_twice(s[i]);
    }
    assert(uppercased(uppercased(s)) =~= uppercased(s));
}

/// The upper case of a character is its own upper case.
pub proof fn lemma_upper_twice(c: char)
    ensures
        upper(upper(c)) == upper(c),
{
}

/// Shown reversed, and the result shown reversed again, a string is back as
/// it was; and showing in upper case what is shown in upper case changes
/// nothing.
pub proof fn lemma_shown_twice(s: Seq<char>)
    ensures
        shown(shown(s, true, false), true, false) == s,
        shown(shown(s, false, true), false, true) == shown(s, false, true),
{
    lemma_reverse_twice(s);
    lemma_uppercase_twice(s);
}

} // verus!
