//! Segment file naming: a segment is named `{prefix}_{start_index}.log`,
//! with the start index written as canonical decimal digits (no sign, no
//! leading zeros). Building and parsing such names is pure string logic.

use vstd::prelude::*;
use vstd::string::*;

verus! {

/// True of the ten ASCII digit characters.
pub open spec fn is_digit(c: char) -> bool {
    48 <= c as u32 <= 57
}

/// The numeric value of a digit character.
pub open spec fn digit_val(c: char) -> nat {
    (c as u32 - 48) as nat
}

/// The digit character of a value below ten.
pub open spec fn digit_char(d: nat) -> char {
    if d == 0 {
        '0'
    } else if d == 1 {
        '1'
    } else if d == 2 {
        '2'
    } else if d == 3 {
        '3'
    } else if d == 4 {
        '4'
    } else if d == 5 {
        '5'
    } else if d == 6 {
        '6'
    } else if d == 7 {
        '7'
    } else if d == 8 {
        '8'
    } else {
        '9'
    }
}

/// The canonical decimal digits of `n`, most significant first.
pub open spec fn spec_decimal(n: nat) -> Seq<char>
    decreases n,
{
    if n < 10 {
        seq![digit_char(n)]
    } else {
        spec_decimal(n / 10).push(digit_char(n % 10))
    }
}

/// The numeric value of a digit sequence.
pub open spec fn decimal_value(s: Seq<char>) -> nat
    decreases s.len(),
{
    if s.len() == 0 {
        0
    } else {
        decimal_value(s.drop_last()) * 10 + digit_val(s.last())
    }
}

/// A canonical decimal numeral: at least one digit, digits only, and no
/// leading zero unless the numeral is exactly "0".
pub open spec fn is_canonical_decimal(s: Seq<char>) -> bool {
    &&& s.len() >= 1
    &&& (forall|i: int| 0 <= i < s.len() ==> is_digit(s[i]))
    &&& (s.len() > 1 ==> s[0] != '0')
}

proof fn lemma_digit_char_val(d: nat)
    requires
        d < 10,
    ensures
        is_digit(digit_char(d)),
        digit_val(digit_char(d)) == d,
{
}

/// A digit character is the digit character of its own value.
proof fn lemma_digit_char_complete(c: char)
    requires
        is_digit(c),
    ensures
        digit_char(digit_val(c)) == c,
{
    let d = digit_val(c);
    lemma_digit_char_val(d);
    vstd::utf8::char_u32_cast(c, c as u32);
    vstd::utf8::char_u32_cast(digit_char(d), digit_char(d) as u32);
}

/// The canonical numeral of `n` is canonical and evaluates back to `n`.
pub proof fn lemma_decimal_canonical(n: nat)
    ensures
        is_canonical_decimal(spec_decimal(n)),
        decimal_value(spec_decimal(n)) == n,
    decreases n,
{
    if n < 10 {
        lemma_digit_char_val(n);
        let s = spec_decimal(n);
        assert(s == seq![digit_char(n)]);
        assert(s.drop_last().len() == 0);
        assert(decimal_value(s.drop_last()) == 0);
        assert(s.last() == digit_char(n));
        assert(decimal_value(s) == digit_val(digit_char(n)));
    } else {
        lemma_decimal_canonical(n / 10);
        lemma_digit_char_val(n % 10);
        let s = spec_decimal(n);
        let hd = spec_decimal(n / 10);
        assert(s == hd.push(digit_char(n % 10)));
        assert(s.drop_last() =~= hd);
        assert(s.last() == digit_char(n % 10));
        assert(decimal_value(s) == (n / 10) * 10 + n % 10);
        assert((n / 10) * 10 + n % 10 == n) by (nonlinear_arith);
        if hd.len() == 1 {
            assert(hd.drop_last().len() == 0);
            assert(decimal_value(hd.drop_last()) == 0);
            assert(hd.last() == hd[0]);
            assert(decimal_value(hd) == digit_val(hd[0]));
            assert(n / 10 >= 1) by (nonlinear_arith)
                requires
                    n >= 10,
            ;
            assert(digit_val(hd[0]) >= 1);
            assert(hd[0] != '0');
        }
        assert(s[0] == hd[0]);
    }
}

/// A nonempty all-digit numeral without a leading zero is at least one.
proof fn lemma_decimal_value_pos(s: Seq<char>)
    requires
        s.len() >= 1,
        forall|i: int| 0 <= i < s.len() ==> is_digit(s[i]),
        s[0] != '0',
    ensures
        decimal_value(s) >= 1,
    decreases s.len(),
{
    if s.len() == 1 {
        assert(s.drop_last().len() == 0);
        assert(decimal_value(s.drop_last()) == 0);
        assert(s.last() == s[0]);
        lemma_digit_char_complete(s[0]);
        assert(digit_val(s[0]) != 0);
        assert(decimal_value(s) == digit_val(s[0]));
    } else {
        lemma_decimal_value_pos(s.drop_last());
        assert(decimal_value(s.drop_last()) * 10 >= 10) by (nonlinear_arith)
            requires
                decimal_value(s.drop_last()) >= 1,
        ;
    }
}

/// A canonical numeral is the canonical numeral of its own value.
pub proof fn lemma_canonical_decimal_complete(s: Seq<char>)
    requires
        is_canonical_decimal(s),
    ensures
        spec_decimal(decimal_value(s)) == s,
    decreases s.len(),
{
    let n = decimal_value(s);
    if s.len() == 1 {
        assert(s.drop_last().len() == 0);
        assert(decimal_value(s.drop_last()) == 0);
        assert(s.last() == s[0]);
        assert(n == digit_val(s[0]));
        assert(n < 10);
        lemma_digit_char_complete(s[0]);
        assert(spec_decimal(n) =~= s);
    } else {
        let hd = s.drop_last();
        let v = decimal_value(hd);
        let d = digit_val(s.last());
        assert(n == v * 10 + d);
        lemma_decimal_value_pos(hd);
        assert(v >= 1);
        assert(d < 10);
        assert(n >= 10 && n / 10 == v && n % 10 == d) by (nonlinear_arith)
            requires
                n == v * 10 + d,
                v >= 1,
                0 <= d < 10,
        ;
        lemma_canonical_decimal_complete(hd);
        lemma_digit_char_complete(s.last());
        assert(digit_char(d) == s.last());
        assert(spec_decimal(n) == spec_decimal(v).push(digit_char(d)));
        assert(hd.push(s.last()) =~= s);
    }
}

/// Extending an all-digit numeral on the right never lowers its value.
pub proof fn lemma_decimal_value_monotone(s: Seq<char>, k: int)
    requires
        0 <= k <= s.len(),
    ensures
        decimal_value(s) >= decimal_value(s.take(k)),
    decreases s.len() - k,
{
    if k < s.len() {
        lemma_decimal_value_monotone(s, k + 1);
        let t = s.take(k + 1);
        assert(t.drop_last() =~= s.take(k));
        assert(decimal_value(t) == decimal_value(s.take(k)) * 10 + digit_val(t.last()));
        assert(decimal_value(s.take(k)) * 10 >= decimal_value(s.take(k))) by (nonlinear_arith);
    } else {
        assert(s.take(k) =~= s);
    }
}

/// The characters of ".log".
pub open spec fn log_suffix() -> Seq<char> {
    seq!['.', 'l', 'o', 'g']
}

/// The name of the segment of logical log `prefix` that starts at `idx`.
pub open spec fn spec_segment_name(prefix: Seq<char>, idx: u64) -> Seq<char> {
    prefix + seq!['_'] + spec_decimal(idx as nat) + log_suffix()
}

/// A name of the right shape for a segment of `prefix`: the prefix, an
/// underscore, anything, then ".log". Only such names concern the log.
pub open spec fn matches_shape(prefix: Seq<char>, name: Seq<char>) -> bool {
    &&& name.len() >= prefix.len() + 5
    &&& name.subrange(0, prefix.len() as int) == prefix
    &&& name[prefix.len() as int] == '_'
    &&& name.subrange(name.len() - 4, name.len() as int) == log_suffix()
}

/// Every proper segment name has the segment shape.
pub proof fn lemma_segment_name_shape(prefix: Seq<char>, idx: u64)
    ensures
        matches_shape(prefix, spec_segment_name(prefix, idx)),
        spec_segment_name(prefix, idx).subrange(
            prefix.len() + 1 as int,
            spec_segment_name(prefix, idx).len() - 4,
        ) == spec_decimal(idx as nat),
{
    lemma_decimal_canonical(idx as nat);
    let name = spec_segment_name(prefix, idx);
    let digits = spec_decimal(idx as nat);
    assert(name.subrange(0, prefix.len() as int) =~= prefix);
    assert(name.subrange(name.len() - 4, name.len() as int) =~= log_suffix());
    assert(name.subrange(prefix.len() + 1 as int, name.len() - 4) =~= digits);
}

/// Two different indices never share a segment name.
pub proof fn lemma_segment_name_injective(prefix: Seq<char>, i: u64, j: u64)
    requires
        spec_segment_name(prefix, i) == spec_segment_name(prefix, j),
    ensures
        i == j,
{
    lemma_segment_name_shape(prefix, i);
    lemma_segment_name_shape(prefix, j);
    lemma_decimal_canonical(i as nat);
    lemma_decimal_canonical(j as nat);
    let name = spec_segment_name(prefix, i);
    assert(spec_decimal(i as nat) == name.subrange(prefix.len() + 1 as int, name.len() - 4));
    assert(spec_decimal(j as nat) == name.subrange(prefix.len() + 1 as int, name.len() - 4));
}

/// A name without the segment shape is no segment name at all.
proof fn lemma_no_shape_no_index(prefix: Seq<char>, name: Seq<char>)
    requires
        !matches_shape(prefix, name),
    ensures
        forall|i: u64| name != spec_segment_name(prefix, i),
{
    assert forall|i: u64| name != spec_segment_name(prefix, i) by {
        lemma_segment_name_shape(prefix, i);
    }
}

/// Returns the one-character numeral of a digit value.
fn digit_str(d: u64) -> (r: &'static str)
    requires
        d < 10,
    ensures
        r@ == seq![digit_char(d as nat)],
{
    proof {
        reveal_strlit("0");
        reveal_strlit("1");
        reveal_strlit("2");
        reveal_strlit("3");
        reveal_strlit("4");
        reveal_strlit("5");
        reveal_strlit("6");
        reveal_strlit("7");
        reveal_strlit("8");
        reveal_strlit("9");
        assert("0"@ =~= seq!['0']);
        assert("1"@ =~= seq!['1']);
        assert("2"@ =~= seq!['2']);
        assert("3"@ =~= seq!['3']);
        assert("4"@ =~= seq!['4']);
        assert("5"@ =~= seq!['5']);
        assert("6"@ =~= seq!['6']);
        assert("7"@ =~= seq!['7']);
        assert("8"@ =~= seq!['8']);
        assert("9"@ =~= seq!['9']);
    }
    if d == 0 {
        "0"
    } else if d == 1 {
        "1"
    } else if d == 2 {
        "2"
    } else if d == 3 {
        "3"
    } else if d == 4 {
        "4"
    } else if d == 5 {
        "5"
    } else if d == 6 {
        "6"
    } else if d == 7 {
        "7"
    } else if d == 8 {
        "8"
    } else {
        "9"
    }
}

/// Writes `n` as its canonical decimal numeral.
fn format_u64(n: u64) -> (s: String)
    ensures
        s@ == spec_decimal(n as nat),
    decreases n,
{
    if n < 10 {
        digit_str(n).to_owned()
    } else {
        let mut s = format_u64(n / 10);
        s.append(digit_str(n % 10));
        proof {
            assert(s@ =~= spec_decimal((n / 10) as nat).push(digit_char((n % 10) as nat)));
        }
        s
    }
}

/// The file name of the segment of `prefix` whose first frame has the given
/// index.
pub fn file_name(prefix: &str, start_index: u64) -> (r: String)
    ensures
        r@ == spec_segment_name(prefix@, start_index),
{
    let mut s = prefix.to_owned();
    s.append("_");
    let digits = format_u64(start_index);
    s.append(digits.as_str());
    s.append(".log");
    proof {
        reveal_strlit("_");
        reveal_strlit(".log");
        assert("_"@ =~= seq!['_']);
        assert(".log"@ =~= log_suffix());
        assert(s@ =~= spec_segment_name(prefix@, start_index));
    }
    s
}

/// Reads a segment's start index back out of its file name.
///
/// `Ok(Some(i))` when `name` is exactly the segment name of `prefix` with
/// index `i`; `Ok(None)` when the name does not have the segment shape at
/// all and is none of the log's business; an error when the name has the
/// shape but no canonical index stands between the underscore and `.log`.
pub fn start_offset_from_file_name(name: &str, prefix: &str) -> (r: Result<
    Option<u64>,
    crate::WalError,
>)
    ensures
        match r {
            Ok(Some(i)) => name@ == spec_segment_name(prefix@, i),
            Ok(None) => !matches_shape(prefix@, name@) && (forall|i: u64|
                name@ != spec_segment_name(prefix@, i)),
            Err(e) => e == crate::WalError::BadSegmentName && matches_shape(prefix@, name@) && (
            forall|i: u64| name@ != spec_segment_name(prefix@, i)),
        },
{
    let nlen = name.unicode_len();
    let plen = prefix.unicode_len();
    if nlen < 5 || nlen - 5 < plen {
        proof {
            lemma_no_shape_no_index(prefix@, name@);
        }
        return Ok(None);
    }
    for i in 0..plen
        invariant
            plen == prefix@.len(),
            nlen == name@.len(),
            nlen >= plen + 5,
            forall|j: int| 0 <= j < i ==> name@[j] == prefix@[j],
    {
        if name.get_char(i) != prefix.get_char(i) {
            proof {
                assert(!matches_shape(prefix@, name@)) by {
                    if matches_shape(prefix@, name@) {
                        assert(name@.subrange(0, plen as int)[i as int] == name@[i as int]);
                    }
                }
                lemma_no_shape_no_index(prefix@, name@);
            }
            return Ok(None);
        }
    }
    if name.get_char(plen) != '_' {
        proof {
            lemma_no_shape_no_index(prefix@, name@);
        }
        return Ok(None);
    }
    if name.get_char(nlen - 4) != '.' || name.get_char(nlen - 3) != 'l' || name.get_char(nlen - 2)
        != 'o' || name.get_char(nlen - 1) != 'g' {
        proof {
            assert(!matches_shape(prefix@, name@)) by {
                if matches_shape(prefix@, name@) {
                    let suf = name@.subrange(name@.len() - 4, name@.len() as int);
                    assert(suf[0] == name@[name@.len() - 4]);
                    assert(suf[1] == name@[name@.len() - 3]);
                    assert(suf[2] == name@[name@.len() - 2]);
                    assert(suf[3] == name@[name@.len() - 1]);
                }
            }
            lemma_no_shape_no_index(prefix@, name@);
        }
        return Ok(None);
    }
    proof {
        assert(name@.subrange(0, plen as int) =~= prefix@);
        assert(name@.subrange(name@.len() - 4, name@.len() as int) =~= log_suffix());
        assert(matches_shape(prefix@, name@));
    }
    let dstart = plen + 1;
    let dend = nlen - 4;
    let ghost middle = name@.subrange(dstart as int, dend as int);
    proof {
        assert forall|i: u64| name@ == spec_segment_name(prefix@, i) implies middle
            == spec_decimal(i as nat) by {
            lemma_segment_name_shape(prefix@, i);
            lemma_decimal_canonical(i as nat);
        }
    }
    if dend <= dstart {
        proof {
            assert forall|i: u64| name@ != spec_segment_name(prefix@, i) by {
                lemma_decimal_canonical(i as nat);
            }
        }
        return Err(crate::WalError::BadSegmentName);
    }
    if dend - dstart > 1 && name.get_char(dstart) == '0' {
        proof {
            assert forall|i: u64| name@ != spec_segment_name(prefix@, i) by {
                lemma_decimal_canonical(i as nat);
                if name@ == spec_segment_name(prefix@, i) {
                    assert(middle[0] == name@[dstart as int]);
                }
            }
        }
        return Err(crate::WalError::BadSegmentName);
    }
    let mut acc: u64 = 0;
    let mut k = dstart;
    while k < dend
        invariant
            plen == prefix@.len(),
            nlen == name@.len(),
            nlen >= plen + 5,
            dstart == plen + 1,
            dend == nlen - 4,
            dstart <= k <= dend,
            dstart < dend,
            matches_shape(prefix@, name@),
            middle == name@.subrange(dstart as int, dend as int),
            forall|i: u64| name@ == spec_segment_name(prefix@, i) ==> middle == spec_decimal(
                i as nat,
            ),
            forall|j: int| dstart <= j < k ==> is_digit(name@[j]),
            acc == decimal_value(name@.subrange(dstart as int, k as int)),
        decreases dend - k,
    {
        let c = name.get_char(k);
        let u = c as u32;
        if u < 48 || u > 57 {
            proof {
                assert forall|i: u64| name@ != spec_segment_name(prefix@, i) by {
                    lemma_decimal_canonical(i as nat);
                    if name@ == spec_segment_name(prefix@, i) {
                        assert(middle[k - dstart] == name@[k as int]);
                        assert(is_digit(spec_decimal(i as nat)[k - dstart]));
                    }
                }
            }
            return Err(crate::WalError::BadSegmentName);
        }
        let d = (u - 48) as u64;
        let ghost taken = name@.subrange(dstart as int, k as int);
        let ghost taken2 = name@.subrange(dstart as int, k + 1 as int);
        proof {
            assert(taken2.drop_last() =~= taken);
            assert(taken2.last() == name@[k as int]);
            assert(digit_val(name@[k as int]) == d);
            assert(decimal_value(taken2) == acc * 10 + d);
        }
        if acc > u64::MAX / 10 || (acc == u64::MAX / 10 && d > u64::MAX % 10) {
            proof {
                assert(acc * 10 + d > u64::MAX) by (nonlinear_arith)
                    requires
                        acc > u64::MAX / 10 || (acc == u64::MAX / 10 && d > u64::MAX % 10),
                        u64::MAX == (u64::MAX / 10) * 10 + u64::MAX % 10,
                ;
                assert forall|i: u64| name@ != spec_segment_name(prefix@, i) by {
                    lemma_decimal_canonical(i as nat);
                    if name@ == spec_segment_name(prefix@, i) {
                        assert(middle.take(k + 1 - dstart) =~= taken2);
                        lemma_decimal_value_monotone(middle, k + 1 - dstart);
                        assert(decimal_value(middle) > u64::MAX);
                    }
                }
            }
            return Err(crate::WalError::BadSegmentName);
        }
        proof {
            assert(acc * 10 + d <= u64::MAX) by (nonlinear_arith)
                requires
                    acc <= u64::MAX / 10,
                    !(acc == u64::MAX / 10 && d > u64::MAX % 10),
                    d < 10,
                    u64::MAX == (u64::MAX / 10) * 10 + u64::MAX % 10,
            ;
        }
        acc = acc * 10 + d;
        k = k + 1;
    }
    proof {
        assert(name@.subrange(dstart as int, k as int) == middle);
        assert(is_canonical_decimal(middle)) by {
            assert(forall|j: int| 0 <= j < middle.len() ==> is_digit(#[trigger] middle[j])) by {
                assert(forall|j: int|
                    0 <= j < middle.len() ==> middle[j] == name@[dstart + j]
                        && is_digit(name@[dstart + j]));
            }
        }
        lemma_canonical_decimal_complete(middle);
        assert(spec_decimal(acc as nat) == middle);
        assert(name@ =~= spec_segment_name(prefix@, acc));
    }
    Ok(Some(acc))
}

} // verus!
