//! String building blocks: owned strings, references and in-place growth.

use vstd::prelude::*;
use vstd::string::StrSliceExecFns;
use vstd::string::StringExecFns;

verus! {

/// The decimal digit character for a value below ten.
pub open spec fn digit_char(d: nat) -> char {
    if d == 0 {
        '0'
    } else if d == 1 {
        '1'
    } else if d == 2 {
        '2'
    } else if d == 3 {
        '3'
    } else if d == 4 {
        '4'
    } else if d == 5 {
        '5'
    } else if d == 6 {
        '6'
    } else if d == 7 {
        '7'
    } else if d == 8 {
        '8'
    } else {
        '9'
    }
}

/// The decimal rendering of a number, most significant digit first.
pub open spec fn dec_digits(n: nat) -> Seq<char>
    decreases n,
{
    if n < 10 {
        seq![digit_char(n)]
    } else {
        dec_digits(n / 10).push(digit_char(n % 10))
    }
}

fn digit_str(d: u64) -> (r: String)
    requires
        d < 10,
    ensures
        r@ == seq![digit_char(d as nat)],
{
    let r = if d == 0 {
        String::from_str("0")
    } else if d == 1 {
        String::from_str("1")
    } else if d == 2 {
        String::from_str("2")
    } else if d == 3 {
        String::from_str("3")
    } else if d == 4 {
        String::from_str("4")
    } else if d == 5 {
        String::from_str("5")
    } else if d == 6 {
        String::from_str("6")
    } else if d == 7 {
        String::from_str("7")
    } else if d == 8 {
        String::from_str("8")
    } else {
        String::from_str("9")
    };
    proof {
        reveal_strlit("0");
        reveal_strlit("1");
        reveal_strlit("2");
        reveal_strlit("3");
        reveal_strlit("4");
        reveal_strlit("5");
        reveal_strlit("6");
        reveal_strlit("7");
        reveal_strlit("8");
        reveal_strlit("9");
        assert(r@ =~= seq![digit_char(d as nat)]);
    }
    r
}

/// The decimal rendering of a number as an owned string.
pub fn u64_to_string(n: u64) -> (r: String)
    ensures
        r@ == dec_digits(n as nat),
    decreases n,
{
    if n < 10 {
        digit_str(n)
    } else {
        let s = u64_to_string(n / 10);
        let d = digit_str(n % 10);
        let r = s.concat(d.as_str());
        proof {
            assert(r@ =~= dec_digits(n as nat));
        }
        r
    }
}

/// Grows a string in place.
pub fn mutability() -> (r: String)
    ensures
        r@ == "this is a mutable string"@,
{
    let mut text = String::from_str("this is a ");
    text.append("mutable string");
    proof {
        reveal_strlit("this is a ");
        reveal_strlit("mutable string");
        reveal_strlit("this is a mutable string");
        assert(text@ =~= "this is a mutable string"@);
    }
    text
}

/// Copies an owned string and reports both the original and the copy.
pub fn borrow_after_move() -> (r: String)
    ensures
        r@ == "text = hello, text2 = hello"@,
{
    let s1 = String::from_str("hello");
    let s2 = s1.clone();
    let r = String::from_str("text = ").concat(s1.as_str()).concat(", text2 = ").concat(
        s2.as_str(),
    );
    proof {
        reveal_strlit("hello");
        reveal_strlit("text = ");
        reveal_strlit(", text2 = ");
        reveal_strlit("text = hello, text2 = hello");
        assert(r@ =~= "text = hello, text2 = hello"@);
    }
    r
}

/// The length of a string, counted in characters.
pub fn calculate_length(s: &String) -> (r: usize)
    ensures
        r == s@.len(),
{
    s.as_str().unicode_len()
}

/// Measures a borrowed string and reports the text with its length.
pub fn ownership_functions() -> (r: String)
    ensures
        r@ == "this prefix is of length 11"@,
{
    let text: String = String::from_str("this prefix");
    let text_length = calculate_length(&text);
    proof {
        reveal_strlit("this prefix");
    }
    let rendered = u64_to_string(text_length as u64);
    let r = text.concat(" is of length ").concat(rendered.as_str());
    proof {
        reveal_strlit(" is of length ");
        reveal_strlit("this prefix is of length 11");
        reveal_with_fuel(dec_digits, 3);
        assert(dec_digits(11) =~= seq!['1', '1']);
        assert(r@ =~= "this prefix is of length 11"@);
    }
    r
}

/// Appends the fixed suffix to a borrowed string, in place.
pub fn append_string(s: &mut String)
    ensures
        final(s)@ == old(s)@ + "mutable string"@,
{
    s.append("mutable string")
}

/// Grows a string through a mutable reference.
pub fn mutable_reference() -> (r: String)
    ensures
        r@ == "this is a mutable string"@,
{
    let mut text = String::from_str("this is a ");
    append_string(&mut text);
    proof {
        reveal_strlit("this is a ");
        reveal_strlit("mutable string");
        reveal_strlit("this is a mutable string");
        assert(text@ =~= "this is a mutable string"@);
    }
    text
}

} // verus!
