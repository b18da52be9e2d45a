use vstd::prelude::*;

use crate::types::{Action, Command, GameError};

verus! {

/// ASCII whitespace for command lines: space, tab, carriage return, newline.
pub open spec fn is_space(b: u8) -> bool {
    b == 32 || b == 9 || b == 13 || b == 10
}

/// An ASCII decimal digit.
pub open spec fn is_digit(b: u8) -> bool {
    48 <= b <= 57
}

/// The length of the token at the head of `s`: the longest prefix without
/// whitespace.
pub open spec fn token_len(s: Seq<u8>) -> nat
    decreases s.len(),
{
    if s.len() == 0 || is_space(s[0]) {
        0
    } else {
        1 + token_len(s.skip(1))
    }
}

/// The whitespace-separated tokens of `s`, in order.
pub open spec fn tokens_of(s: Seq<u8>) -> Seq<Seq<u8>>
    decreases s.len(),
    via tokens_of_decreases
{
    if s.len() == 0 {
        Seq::empty()
    } else if is_space(s[0]) {
        tokens_of(s.skip(1))
    } else {
        seq![s.take(token_len(s) as int)] + tokens_of(s.skip(token_len(s) as int))
    }
}

/// The head token never runs past the end of the line.
proof fn lemma_token_len_le(s: Seq<u8>)
    ensures
        token_len(s) <= s.len(),
    decreases s.len(),
{
    if s.len() > 0 && !is_space(s[0]) {
        lemma_token_len_le(s.skip(1));
    }
}

#[via_fn]
proof fn tokens_of_decreases(s: Seq<u8>) {
    if s.len() > 0 && !is_space(s[0]) {
        lemma_token_len_le(s);
        assert(token_len(s) == 1 + token_len(s.skip(1)));
    }
}

/// Every byte of `t` is a decimal digit.
pub open spec fn all_digits(t: Seq<u8>) -> bool {
    forall|i: int| 0 <= i < t.len() ==> is_digit(#[trigger] t[i])
}

/// The decimal value of a digit string.
pub open spec fn digits_value(t: Seq<u8>) -> int
    decreases t.len(),
{
    if t.len() == 0 {
        0
    } else {
        digits_value(t.drop_last()) * 10 + (t.last() - 48)
    }
}

/// A usable coordinate token: nonempty, all digits, and small enough for a
/// coordinate.
pub open spec fn valid_coord(t: Seq<u8>) -> bool {
    &&& t.len() >= 1
    &&& all_digits(t)
    &&& digits_value(t) <= u16::MAX as int
}

/// The action keyword: `reveal` or `flag`.
pub open spec fn action_of(t: Seq<u8>) -> Option<Action> {
    if t == seq![114u8, 101u8, 118u8, 101u8, 97u8, 108u8] {
        Some(Action::Reveal)
    } else if t == seq![102u8, 108u8, 97u8, 103u8] {
        Some(Action::Flag)
    } else {
        None
    }
}

/// What a command line means: exactly three whitespace-separated tokens, the
/// first two decimal coordinates that fit `u16`, the third an action
/// keyword; anything else is malformed.
pub open spec fn spec_parse(s: Seq<u8>) -> Option<Command> {
    let ts = tokens_of(s);
    if ts.len() == 3 && valid_coord(ts[0]) && valid_coord(ts[1]) && action_of(ts[2]).is_some() {
        Some(
            Command {
                x: digits_value(ts[0]) as u16,
                y: digits_value(ts[1]) as u16,
                action: action_of(ts[2]).unwrap(),
            },
        )
    } else {
        None
    }
}

/// The head token of `s` runs up to the first whitespace byte or the end.
proof fn lemma_token_len_at(s: Seq<u8>, k: int)
    requires
        0 <= k <= s.len(),
        forall|j: int| 0 <= j < k ==> !is_space(#[trigger] s[j]),
        k == s.len() || is_space(s[k]),
    ensures
        token_len(s) == k,
    decreases k,
{
    if k == 0 {
    } else {
        assert(!is_space(s[0]));
        let t = s.skip(1);
        assert forall|j: int| 0 <= j < k - 1 implies !is_space(#[trigger] t[j]) by {
            assert(t[j] == s[j + 1]);
        }
        if k - 1 < t.len() {
            assert(t[k - 1] == s[k]);
        }
        lemma_token_len_at(t, k - 1);
    }
}

/// Digit strings are nonnegative.
proof fn lemma_digits_nonneg(t: Seq<u8>)
    requires
        all_digits(t),
    ensures
        digits_value(t) >= 0,
    decreases t.len(),
{
    if t.len() > 0 {
        assert(all_digits(t.drop_last())) by {
            assert forall|i: int| 0 <= i < t.len() - 1 implies is_digit(
                #[trigger] t.drop_last()[i],
            ) by {
                assert(t.drop_last()[i] == t[i]);
            }
        }
        lemma_digits_nonneg(t.drop_last());
    }
}

/// A digit string is worth at least any of its prefixes.
proof fn lemma_digits_mono(t: Seq<u8>, j: int)
    requires
        all_digits(t),
        0 <= j <= t.len(),
    ensures
        digits_value(t) >= digits_value(t.take(j)),
    decreases t.len() - j,
{
    if j == t.len() {
        assert(t.take(j) =~= t);
    } else {
        let p = t.take(j);
        let q = t.take(j + 1);
        assert(q.drop_last() =~= p);
        assert(q.last() == t[j]);
        assert(all_digits(p)) by {
            assert forall|i: int| 0 <= i < p.len() implies is_digit(#[trigger] p[i]) by {
                assert(p[i] == t[i]);
            }
        }
        lemma_digits_nonneg(p);
        assert(digits_value(q) == digits_value(p) * 10 + (t[j] - 48));
        assert(digits_value(q) >= digits_value(p));
        lemma_digits_mono(t, j + 1);
    }
}

/// Splits a line into its whitespace-separated tokens.
fn tokenize(s: &[u8]) -> (r: Vec<Vec<u8>>)
    ensures
        r@.map_values(|t: Vec<u8>| t@) == tokens_of(s@),
{
    let mut out: Vec<Vec<u8>> = Vec::new();
    let mut i: usize = 0;
    proof {
        assert(s@.skip(0) =~= s@);
        assert(out@.map_values(|t: Vec<u8>| t@) + tokens_of(s@) =~= tokens_of(s@));
    }
    while i < s.len()
        invariant
            0 <= i <= s@.len(),
            out@.map_values(|t: Vec<u8>| t@) + tokens_of(s@.skip(i as int)) == tokens_of(s@),
        decreases s@.len() - i,
    {
        let b = s[i];
        if b == 32 || b == 9 || b == 13 || b == 10 {
            proof {
                assert(s@.skip(i as int).skip(1) =~= s@.skip(i as int + 1));
            }
            i += 1;
        } else {
            let start = i;
            let mut tok: Vec<u8> = Vec::new();
            tok.push(b);
            i += 1;
            while i < s.len() && s[i] != 32 && s[i] != 9 && s[i] != 13 && s[i] != 10
                invariant
                    0 <= start < i <= s@.len(),
                    tok@ == s@.subrange(start as int, i as int),
                    forall|j: int| start as int <= j < i as int ==> !is_space(#[trigger] s@[j]),
                decreases s@.len() - i,
            {
                tok.push(s[i]);
                proof {
                    assert(tok@ =~= s@.subrange(start as int, i as int + 1));
                }
                i += 1;
            }
            proof {
                let rest = s@.skip(start as int);
                let k = i as int - start as int;
                assert forall|j: int| 0 <= j < k implies !is_space(#[trigger] rest[j]) by {
                    assert(rest[j] == s@[start as int + j]);
                }
                if k < rest.len() {
                    assert(rest[k] == s@[i as int]);
                }
                lemma_token_len_at(rest, k);
                assert(!is_space(rest[0]));
                assert(rest.take(k) =~= s@.subrange(start as int, i as int));
                assert(rest.skip(k) =~= s@.skip(i as int));
                assert(tokens_of(rest) == seq![tok@] + tokens_of(s@.skip(i as int)));
            }
            let ghost old_out = out@;
            out.push(tok);
            proof {
                assert(out@.map_values(|t: Vec<u8>| t@) =~= old_out.map_values(|t: Vec<u8>| t@)
                    + seq![tok@]);
                assert(out@.map_values(|t: Vec<u8>| t@) + tokens_of(s@.skip(i as int)) =~= tokens_of(
                    s@,
                ));
            }
        }
    }
    proof {
        assert(s@.skip(s@.len() as int) =~= Seq::<u8>::empty());
        assert(out@.map_values(|t: Vec<u8>| t@) =~= tokens_of(s@));
    }
    out
}

/// Parses a coordinate token into a `u16`, rejecting anything that is not a
/// plain decimal number of value at most `u16::MAX`.
fn parse_u16(t: &Vec<u8>) -> (r: Option<u16>)
    ensures
        match r {
            Some(v) => valid_coord(t@) && v as int == digits_value(t@),
            None => !valid_coord(t@),
        },
{
    if t.len() == 0 {
        return None;
    }
    let mut acc: u32 = 0;
    let mut i: usize = 0;
    while i < t.len()
        invariant
            0 <= i <= t@.len(),
            t@.len() >= 1,
            acc as int == digits_value(t@.take(i as int)),
            acc <= 65535,
            forall|j: int| 0 <= j < i as int ==> is_digit(#[trigger] t@[j]),
        decreases t@.len() - i,
    {
        let b = t[i];
        if b < 48 || b > 57 {
            return None;
        }
        proof {
            assert(t@.take(i as int + 1).drop_last() =~= t@.take(i as int));
            assert(t@.take(i as int + 1).last() == t@[i as int]);
        }
        let next: u32 = acc * 10 + (b - 48) as u32;
        if next > 65535 {
            proof {
                if all_digits(t@) {
                    lemma_digits_mono(t@, i as int + 1);
                }
            }
            return None;
        }
        acc = next;
        i += 1;
    }
    proof {
        assert(t@.take(t@.len() as int) =~= t@);
    }
    Some(acc as u16)
}

/// Recognizes an action keyword token.
fn parse_action(t: &Vec<u8>) -> (r: Option<Action>)
    ensures
        r == action_of(t@),
{
    let ghost reveal_word = seq![114u8, 101u8, 118u8, 101u8, 97u8, 108u8];
    let ghost flag_word = seq![102u8, 108u8, 97u8, 103u8];
    if t.len() == 6 && t[0] == 114 && t[1] == 101 && t[2] == 118 && t[3] == 101 && t[4] == 97
        && t[5] == 108 {
        proof {
            assert(t@ =~= reveal_word);
        }
        Some(Action::Reveal)
    } else if t.len() == 4 && t[0] == 102 && t[1] == 108 && t[2] == 97 && t[3] == 103 {
        proof {
            assert(t@ =~= flag_word);
        }
        Some(Action::Flag)
    } else {
        proof {
            if t@ == reveal_word {
                assert(t@.len() == 6 && t@[0] == 114 && t@[1] == 101 && t@[2] == 118 && t@[3]
                    == 101 && t@[4] == 97 && t@[5] == 108);
            }
            if t@ == flag_word {
                assert(t@.len() == 4 && t@[0] == 102 && t@[1] == 108 && t@[2] == 97 && t@[3]
                    == 103);
            }
        }
        None
    }
}

/// Parses one command line into `(x, y, action)`. Exactly the lines that
/// `spec_parse` accepts are accepted, with the same meaning; every other
/// line fails with `MalformedCommand`.
pub fn parse_command(line: &[u8]) -> (r: Result<Command, GameError>)
    ensures
        match spec_parse(line@) {
            Some(cmd) => r == Ok::<Command, GameError>(cmd),
            None => r == Err::<Command, GameError>(GameError::MalformedCommand),
        },
{
    let tokens = tokenize(line);
    proof {
        assert(tokens@.map_values(|t: Vec<u8>| t@).len() == tokens@.len());
    }
    if tokens.len() != 3 {
        return Err(GameError::MalformedCommand);
    }
    proof {
        assert(tokens@.map_values(|t: Vec<u8>| t@)[0] == tokens@[0]@);
        assert(tokens@.map_values(|t: Vec<u8>| t@)[1] == tokens@[1]@);
        assert(tokens@.map_values(|t: Vec<u8>| t@)[2] == tokens@[2]@);
    }
    let x = match parse_u16(&tokens[0]) {
        Some(v) => v,
        None => {
            return Err(GameError::MalformedCommand);
        },
    };
    let y = match parse_u16(&tokens[1]) {
        Some(v) => v,
        None => {
            return Err(GameError::MalformedCommand);
        },
    };
    let action = match parse_action(&tokens[2]) {
        Some(a) => a,
        None => {
            return Err(GameError::MalformedCommand);
        },
    };
    Ok(Command { x, y, action })
}

} // verus!
