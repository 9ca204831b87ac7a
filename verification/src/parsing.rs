//! Strict parsing of input lines: exactly two comma-separated fields, the
//! first an unsigned integer index, the second an arbitrary label.

use vstd::prelude::*;

verus! {

/// Why a line was rejected. Any malformed line is fatal for the whole run.
#[derive(Clone, Copy, Debug, PartialEq, Eq, Structural)]
pub enum FormatError {
    /// The line does not split into exactly two comma-separated fields.
    FieldCount,
    /// The index field is not an unsigned integer that fits in `usize`.
    BadIndex,
}

/// `p` is the position of the one and only comma of `s`.
pub open spec fn is_split_at(s: Seq<char>, p: int) -> bool {
    &&& 0 <= p < s.len()
    &&& s[p] == ','
    &&& forall|j: int| 0 <= j < s.len() && j != p ==> s[j] != ','
}

/// The line has exactly two fields, i.e. exactly one comma.
pub open spec fn line_fields_ok(s: Seq<char>) -> bool {
    exists|p: int| is_split_at(s, p)
}

/// Position of the single comma (meaningful only when `line_fields_ok`).
pub open spec fn split_pos(s: Seq<char>) -> int {
    choose|p: int| is_split_at(s, p)
}

/// The first field: everything before the comma.
pub open spec fn index_part(s: Seq<char>) -> Seq<char> {
    s.take(split_pos(s))
}

/// The second field: everything after the comma.
pub open spec fn label_part(s: Seq<char>) -> Seq<char> {
    s.skip(split_pos(s) + 1)
}

pub open spec fn is_digit(c: char) -> bool {
    48 <= c as u32 <= 57
}

pub open spec fn digit_val(c: char) -> nat {
    (c as u32 - 48) as nat
}

pub open spec fn all_digits(s: Seq<char>) -> bool {
    forall|i: int| 0 <= i < s.len() ==> is_digit(#[trigger] s[i])
}

/// Value of a digit sequence read in base 10.
pub open spec fn dec_val(s: Seq<char>) -> nat
    decreases s.len(),
{
    if s.len() == 0 {
        0
    } else {
        dec_val(s.drop_last()) * 10 + digit_val(s.last())
    }
}

/// The digits of an index field, allowing one optional leading `+` sign.
pub open spec fn digit_run(s: Seq<char>) -> Seq<char> {
    if s.len() > 0 && s[0] == '+' {
        s.drop_first()
    } else {
        s
    }
}

/// The index field holds an unsigned decimal integer that fits in `usize`.
pub open spec fn index_ok(s: Seq<char>) -> bool {
    &&& digit_run(s).len() > 0
    &&& all_digits(digit_run(s))
    &&& dec_val(digit_run(s)) <= usize::MAX
}

pub open spec fn index_val(s: Seq<char>) -> nat {
    dec_val(digit_run(s))
}

/// The whole line is well-formed.
pub open spec fn line_ok(s: Seq<char>) -> bool {
    line_fields_ok(s) && index_ok(index_part(s))
}

/// The error a malformed line is rejected with: a field-count error wins over
/// a bad index, since the fields are not even identified without the comma.
pub open spec fn line_err(s: Seq<char>) -> FormatError {
    if !line_fields_ok(s) {
        FormatError::FieldCount
    } else {
        FormatError::BadIndex
    }
}

pub open spec fn line_index(s: Seq<char>) -> nat {
    index_val(index_part(s))
}

pub open spec fn line_label(s: Seq<char>) -> Seq<char> {
    label_part(s)
}

/// A prefix of a digit sequence never reads as a larger value than the whole.
proof fn lemma_dec_val_prefix_le(s: Seq<char>, i: int)
    requires
        0 <= i <= s.len(),
    ensures
        dec_val(s.take(i)) <= dec_val(s),
    decreases s.len() - i,
{
    if i < s.len() {
        lemma_dec_val_prefix_le(s, i + 1);
        assert(s.take(i + 1).drop_last() =~= s.take(i));
        assert(dec_val(s.take(i + 1)) == dec_val(s.take(i)) * 10 + digit_val(s.take(i + 1).last()));
        assert(dec_val(s.take(i)) <= dec_val(s.take(i)) * 10);
    } else {
        assert(s.take(i) =~= s);
    }
}

/// Scan for the single comma of `line`; `None` when the count is not one.
fn find_single_comma(line: &str) -> (r: Option<usize>)
    ensures
        match r {
            Some(p) => is_split_at(line@, p as int),
            None => !line_fields_ok(line@),
        },
{
    let n = line.unicode_len();
    let mut i: usize = 0;
    let mut found: Option<usize> = None;
    while i < n
        invariant
            i <= n,
            n == line@.len(),
            match found {
                Some(p) => p < i && line@[p as int] == ','
                    && forall|j: int| 0 <= j < i && j != p ==> line@[j] != ',',
                None => forall|j: int| 0 <= j < i ==> line@[j] != ',',
            },
        decreases n - i,
    {
        let c = line.get_char(i);
        if c == ',' {
            match found {
                None => {
                    found = Some(i);
                },
                Some(p) => {
                    proof {
                        assert forall|q: int| !is_split_at(line@, q) by {
                            if q == p as int {
                                assert(line@[i as int] == ',');
                            } else {
                                assert(line@[p as int] == ',');
                            }
                        }
                    }
                    return None;
                },
            }
        }
        i += 1;
    }
    match found {
        Some(p) => Some(p),
        None => {
            proof {
                assert forall|q: int| !is_split_at(line@, q) by {
                    if 0 <= q < line@.len() {
                        assert(line@[q] != ',');
                    }
                }
            }
            None
        },
    }
}

/// Parse an index field as an unsigned decimal integer, as the input format
/// demands: an optional leading `+`, then one or more digits, fitting `usize`.
pub fn parse_index(field: &str) -> (r: Option<usize>)
    ensures
        match r {
            Some(v) => index_ok(field@) && v == index_val(field@),
            None => !index_ok(field@),
        },
{
    let n = field.unicode_len();
    let start: usize = if n > 0 && field.get_char(0) == '+' {
        1
    } else {
        0
    };
    let ghost d = digit_run(field@);
    proof {
        assert(d =~= field@.skip(start as int));
    }
    if start == n {
        return None;
    }
    let mut acc: usize = 0;
    let mut i: usize = start;
    while i < n
        invariant
            start <= i <= n,
            n == field@.len(),
            d == digit_run(field@),
            d == field@.skip(start as int),
            d.len() == n - start,
            forall|j: int| 0 <= j < d.len() ==> d[j] == field@[j + start],
            all_digits(d.take(i - start)),
            acc == dec_val(d.take(i - start)),
        decreases n - i,
    {
        let c = field.get_char(i);
        let cv = c as u32;
        if cv < 48 || cv > 57 {
            proof {
                assert(d[i - start] == field@[i as int]);
                assert(!is_digit(d[i - start]));
            }
            return None;
        }
        let dv = (cv - 48) as usize;
        proof {
            assert(d.take(i - start + 1).drop_last() =~= d.take(i - start));
            assert(d.take(i - start + 1).last() == d[i - start]);
            assert(d[i - start] == field@[i as int]);
            assert(digit_val(d[i - start]) == dv);
        }
        if acc > (usize::MAX - dv) / 10 {
            proof {
                let m = (usize::MAX - dv) as int;
                assert(m == 10 * (m / 10) + m % 10 && 0 <= m % 10 < 10) by (nonlinear_arith)
                    requires m >= 0;
                assert(acc * 10 >= (m / 10 + 1) * 10) by (nonlinear_arith)
                    requires acc >= m / 10 + 1;
                assert(acc * 10 + dv > usize::MAX);
                assert(dec_val(d.take(i - start + 1)) > usize::MAX);
                lemma_dec_val_prefix_le(d, i - start + 1);
            }
            return None;
        }
        proof {
            let m = (usize::MAX - dv) as int;
            assert(m == 10 * (m / 10) + m % 10 && 0 <= m % 10 < 10) by (nonlinear_arith)
                requires m >= 0;
            assert(acc * 10 <= (m / 10) * 10) by (nonlinear_arith)
                requires acc <= m / 10;
            assert(acc * 10 + dv <= usize::MAX);
        }
        acc = acc * 10 + dv;
        i += 1;
    }
    proof {
        assert(d.take(i - start) =~= d);
    }
    Some(acc)
}

/// Parse one input line into its record: the unsigned index and the label.
/// Exactly the lines `line_ok` admits parse; every other line is rejected
/// with the error `line_err` names.
pub fn parse_line(line: &str) -> (r: Result<(usize, String), FormatError>)
    ensures
        match r {
            Ok(p) => line_ok(line@) && p.0 == line_index(line@) && p.1@ == line_label(line@),
            Err(e) => !line_ok(line@) && e == line_err(line@),
        },
{
    match find_single_comma(line) {
        None => Err(FormatError::FieldCount),
        Some(p) => {
            proof {
                let q = split_pos(line@);
                assert(is_split_at(line@, q));
                if q != p as int {
                    assert(line@[p as int] != ',');
                }
                assert(q == p as int);
            }
            let n = line.unicode_len();
            let idx_field = line.substring_char(0, p);
            let label_field = line.substring_char(p + 1, n);
            proof {
                assert(idx_field@ =~= index_part(line@));
                assert(label_field@ =~= label_part(line@));
            }
            match parse_index(idx_field) {
                None => Err(FormatError::BadIndex),
                Some(v) => Ok((v, label_field.to_owned())),
            }
        },
    }
}

} // verus!
