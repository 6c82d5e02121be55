use vstd::prelude::*;
use vstd::string::StrSliceExecFns;

verus! {

pub open spec fn is_digit(c: char) -> bool {
    '0' <= c && c <= '9'
}

pub open spec fn digit_value(c: char) -> nat {
    if is_digit(c) {
        (c as int - '0' as int) as nat
    } else {
        0
    }
}

/// The number that a string of decimal digits denotes.
pub open spec fn decimal_value(s: Seq<char>) -> nat
    decreases s.len(),
{
    if s.len() == 0 {
        0
    } else {
        decimal_value(s.drop_last()) * 10 + digit_value(s.last())
    }
}

/// A non-empty string of decimal digits.
pub open spec fn is_decimal(s: Seq<char>) -> bool {
    s.len() > 0 && forall|i: int| 0 <= i < s.len() ==> is_digit(#[trigger] s[i])
}

proof fn lemma_decimal_value_grows(s: Seq<char>, n: int)
    requires
        0 <= n <= s.len(),
    ensures
        decimal_value(s.take(n)) <= decimal_value(s),
    decreases s.len() - n,
{
    if n < s.len() {
        assert(s.take(n + 1).drop_last() =~= s.take(n));
        lemma_decimal_value_grows(s, n + 1);
    } else {
        assert(s.take(n) =~= s);
    }
}

/// Reads a table size written in decimal digits; `None` when the text is not
/// such a number or the number does not fit in a `usize`.
pub fn parse_size(text: &str) -> (r: Option<usize>)
    ensures
        r == (if is_decimal(text@) && decimal_value(text@) <= usize::MAX {
            Some(decimal_value(text@) as usize)
        } else {
            None
        }),
{
    let len = text.unicode_len();
    if len == 0 {
        return None;
    }
    let mut value: usize = 0;
    let mut i: usize = 0;
    while i < len
        invariant
            len == text@.len(),
            i <= len,
            value == decimal_value(text@.take(i as int)),
            forall|j: int| 0 <= j < i ==> is_digit(#[trigger] text@[j]),
        decreases len - i,
    {
        let c = text.get_char(i);
        assert(text@.take(i + 1).drop_last() =~= text@.take(i as int));
        if c < '0' || c > '9' {
            return None;
        }
        let d = (c as u32 - '0' as u32) as usize;
        if value > (usize::MAX - d) / 10 {
            proof {
                lemma_decimal_value_grows(text@, i + 1);
            }
            return None;
        }
        value = value * 10 + d;
        i = i + 1;
    }
    assert(text@.take(i as int) =~= text@);
    Some(value)
}

/// What the program is run with: the course file and the table size.
pub struct Config {
    pub file_path: String,
    pub hash_size: usize,
}

impl Config {
    /// Reads the arguments after the program name: a file path, then a size.
    pub fn build(args: &Vec<String>) -> (r: Result<Config, &'static str>)
        ensures
            args@.len() < 2 ==> (r matches Err(m) && m@ == "Did not get file path"@),
            args@.len() == 2 ==> (r matches Err(m) && m@ == "Did not get hash size"@),
            args@.len() > 2 ==> (match r {
                Ok(c) => c.file_path@ == args@[1]@ && is_decimal(args@[2]@) && c.hash_size
                    == decimal_value(args@[2]@),
                Err(m) => m@ == "Hash size is not a number"@ && !(is_decimal(args@[2]@)
                    && decimal_value(args@[2]@) <= usize::MAX),
            }),
    {
        if args.len() < 2 {
            return Err("Did not get file path");
        }
        let file_path = args[1].clone();
        if args.len() < 3 {
            return Err("Did not get hash size");
        }
        match parse_size(args[2].as_str()) {
            Some(hash_size) => Ok(Config { file_path, hash_size }),
            None => Err("Hash size is not a number"),
        }
    }
}

} // verus!
