use vstd::prelude::*;

use crate::atlas::text::{decimal, push_decimal, push_str_chars, string_from_chars};

verus! {

broadcast use vstd::string::group_string_axioms;

/// The value of a run of decimal digits.
pub open spec fn digits_value(s: Seq<char>) -> int
    decreases s.len(),
{
    if s.len() == 0 {
        0
    } else {
        digits_value(s.drop_last()) * 10 + (s.last() as int - '0' as int)
    }
}

pub open spec fn all_digits(s: Seq<char>) -> bool {
    forall|i: int| 0 <= i < s.len() ==> '0' <= #[trigger] s[i] <= '9'
}

/// The `u32` a text stands for as `str::parse::<u32>` reads it: an optional
/// '+' and at least one decimal digit, with a value that fits.
pub open spec fn u32_text(s: Seq<char>) -> Option<u32> {
    let body = if s.len() > 0 && s[0] == '+' {
        s.drop_first()
    } else {
        s
    };
    if body.len() > 0 && all_digits(body) && digits_value(body) <= u32::MAX {
        Some(digits_value(body) as u32)
    } else {
        None
    }
}

/// `str::parse::<u32>`: the number, or the parse error's message. The
/// message's wording is the standard library's and is not stated here.
#[verifier::external_body]
fn parse_u32(value: &str) -> (r: Result<u32, String>)
    ensures
        match r {
            Ok(n) => u32_text(value@) == Some(n),
            Err(_) => u32_text(value@) is None,
        },
{
    value.parse::<u32>().map_err(|err| err.to_string())
}

/// The choices as `{:?}` prints a slice of numbers: `[a, b, c]`.
pub open spec fn choices_text(choices: Seq<u32>) -> Seq<char>
    decreases choices.len(),
{
    if choices.len() == 0 {
        "[]"@
    } else {
        "["@ + choices_items(choices) + "]"@
    }
}

/// The numbers separated by ", ".
pub open spec fn choices_items(choices: Seq<u32>) -> Seq<char>
    decreases choices.len(),
{
    if choices.len() <= 1 {
        if choices.len() == 0 {
            Seq::empty()
        } else {
            decimal(choices[0] as nat)
        }
    } else {
        choices_items(choices.drop_last()) + ", "@ + decimal(choices.last() as nat)
    }
}

/// A number out of fixed choices: the parsed value when it is one of them;
/// otherwise a message naming the setting.
pub fn parse_choice(value: &str, choices: &[u32], label: &str) -> (r: Result<u32, String>)
    ensures
        match u32_text(value@) {
            Some(n) => if choices@.contains(n) {
                r == Ok::<u32, String>(n)
            } else {
                r matches Err(m) && m@ == label@ + " must be one of "@ + choices_text(choices@)
            },
            None => r matches Err(m) && exists|reason: Seq<char>| m@ == "invalid "@ + label@ + ": "@ + reason,
        },
{
    let parsed = match parse_u32(value) {
        Ok(n) => n,
        Err(err) => {
            let mut text: Vec<char> = Vec::new();
            push_str_chars(&mut text, "invalid ");
            push_str_chars(&mut text, label);
            push_str_chars(&mut text, ": ");
            push_str_chars(&mut text, err.as_str());
            return Err(string_from_chars(&text));
        },
    };
    let mut i: usize = 0;
    while i < choices.len()
        invariant
            i <= choices@.len(),
            u32_text(value@) == Some(parsed),
            forall|k: int| 0 <= k < i ==> choices@[k] != parsed,
        decreases choices@.len() - i,
    {
        if choices[i] == parsed {
            assert(choices@[i as int] == parsed);
            return Ok(parsed);
        }
        i += 1;
    }
    let mut text: Vec<char> = Vec::new();
    push_str_chars(&mut text, label);
    push_str_chars(&mut text, " must be one of ");
    push_str_chars(&mut text, "[");
    let mut k: usize = 0;
    while k < choices.len()
        invariant
            k <= choices@.len(),
            text@ == label@ + " must be one of "@ + "["@ + choices_items(choices@.take(k as int)),
        decreases choices@.len() - k,
    {
        let ghost before = text@;
        if k > 0 {
            push_str_chars(&mut text, ", ");
        }
        push_decimal(&mut text, choices[k] as u64);
        proof {
            let t = choices@.take(k + 1);
            assert(t.drop_last() == choices@.take(k as int));
            assert(t.last() == choices@[k as int]);
            if k == 0 {
                assert(choices@.take(0).len() == 0);
                assert(text@ == before + decimal(choices@[0] as nat));
            }
        }
        k += 1;
    }
    push_str_chars(&mut text, "]");
    proof {
        assert(choices@.take(choices@.len() as int) == choices@);
        assert(!choices@.contains(parsed));
        if choices@.len() == 0 {
            reveal_strlit("[");
            reveal_strlit("]");
            reveal_strlit("[]");
            assert("["@ + choices_items(choices@) + "]"@ =~= "[]"@);
        }
        assert(text@ =~= label@ + " must be one of "@ + choices_text(choices@));
    }
    Err(string_from_chars(&text))
}

/// The padding setting: one of 0, 1, 2, 4 or 8 pixels.
pub fn parse_padding(value: &str) -> (r: Result<u32, String>)
    ensures
        match u32_text(value@) {
            Some(n) => if n == 0 || n == 1 || n == 2 || n == 4 || n == 8 {
                r == Ok::<u32, String>(n)
            } else {
                r matches Err(m) && m@ == "padding must be one of [0, 1, 2, 4, 8]"@
            },
            None => r matches Err(m) && exists|reason: Seq<char>| m@ == "invalid padding: "@ + reason,
        },
{
    let choices: [u32; 5] = [0, 1, 2, 4, 8];
    let r = parse_choice(value, &choices, "padding");
    proof {
        reveal_strlit("padding");
        assert(choices@ == seq![0u32, 1u32, 2u32, 4u32, 8u32]);
        assert forall|n: u32| choices@.contains(n) <==> (n == 0 || n == 1 || n == 2 || n == 4 || n == 8) by {
            if n == 0 {
                assert(choices@[0] == n);
            } else if n == 1 {
                assert(choices@[1] == n);
            } else if n == 2 {
                assert(choices@[2] == n);
            } else if n == 4 {
                assert(choices@[3] == n);
            } else if n == 8 {
                assert(choices@[4] == n);
            }
        }
        reveal_with_fuel(choices_items, 6);
        assert(choices_text(choices@) =~= "[0, 1, 2, 4, 8]"@) by {
            reveal_strlit("[0, 1, 2, 4, 8]");
            reveal_strlit("[");
            reveal_strlit("]");
            reveal_strlit(", ");
        }
        assert("padding"@ + " must be one of "@ + choices_text(choices@) =~= "padding must be one of [0, 1, 2, 4, 8]"@) by {
            reveal_strlit(" must be one of ");
            reveal_strlit("padding must be one of [0, 1, 2, 4, 8]");
            reveal_strlit("[0, 1, 2, 4, 8]");
            assert("padding"@ + " must be one of "@ + "[0, 1, 2, 4, 8]"@ =~= "padding must be one of [0, 1, 2, 4, 8]"@);
        }
        assert("invalid "@ + "padding"@ + ": "@ =~= "invalid padding: "@) by {
            reveal_strlit("invalid ");
            reveal_strlit(": ");
            reveal_strlit("invalid padding: ");
        }
    }
    r
}

} // verus!

verus! {

/// The extrusion setting: one of 0, 1, 2 or 4 pixels.
pub fn parse_extrude(value: &str) -> (r: Result<u32, String>)
    ensures
        match u32_text(value@) {
            Some(n) => if n == 0 || n == 1 || n == 2 || n == 4 {
                r == Ok::<u32, String>(n)
            } else {
                r matches Err(m) && m@ == "extrude must be one of [0, 1, 2, 4]"@
            },
            None => r matches Err(m) && exists|reason: Seq<char>| m@ == "invalid extrude: "@ + reason,
        },
{
    let choices: [u32; 4] = [0, 1, 2, 4];
    let r = parse_choice(value, &choices, "extrude");
    proof {
        reveal_strlit("extrude");
        assert(choices@ == seq![0u32, 1u32, 2u32, 4u32]);
        assert forall|n: u32| choices@.contains(n) <==> (n == 0 || n == 1 || n == 2 || n == 4) by {
            if n == 0 {
                assert(choices@[0] == n);
            } else if n == 1 {
                assert(choices@[1] == n);
            } else if n == 2 {
                assert(choices@[2] == n);
            } else if n == 4 {
                assert(choices@[3] == n);
            }
        }
        reveal_with_fuel(choices_items, 5);
        assert(choices_text(choices@) =~= "[0, 1, 2, 4]"@) by {
            reveal_strlit("[0, 1, 2, 4]");
            reveal_strlit("[");
            reveal_strlit("]");
            reveal_strlit(", ");
        }
        assert("extrude"@ + " must be one of "@ + choices_text(choices@) =~= "extrude must be one of [0, 1, 2, 4]"@) by {
            reveal_strlit(" must be one of ");
            reveal_strlit("extrude must be one of [0, 1, 2, 4]");
            reveal_strlit("[0, 1, 2, 4]");
            assert("extrude"@ + " must be one of "@ + "[0, 1, 2, 4]"@ =~= "extrude must be one of [0, 1, 2, 4]"@);
        }
        assert("invalid "@ + "extrude"@ + ": "@ =~= "invalid extrude: "@) by {
            reveal_strlit("invalid ");
            reveal_strlit(": ");
            reveal_strlit("invalid extrude: ");
        }
    }
    r
}

/// A positive whole number.
pub fn parse_positive_u32(value: &str) -> (r: Result<u32, String>)
    ensures
        match u32_text(value@) {
            Some(n) => if n > 0 {
                r == Ok::<u32, String>(n)
            } else {
                r matches Err(m) && m@ == "value must be greater than 0"@
            },
            None => r matches Err(m) && exists|reason: Seq<char>| m@ == "invalid value: "@ + reason,
        },
{
    match parse_u32(value) {
        Ok(parsed) => {
            if parsed > 0 {
                Ok(parsed)
            } else {
                Err(String::from_str("value must be greater than 0"))
            }
        },
        Err(err) => {
            let mut text: Vec<char> = Vec::new();
            push_str_chars(&mut text, "invalid value: ");
            push_str_chars(&mut text, err.as_str());
            Err(string_from_chars(&text))
        },
    }
}

} // verus!
