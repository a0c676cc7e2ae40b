//! Naming and listing of numbered log files.
//!
//! A generation `g` lives in the file `<dir>/<g>.log`.  A directory scan
//! keeps exactly the names of the form `<digits>.log` and yields their
//! generations in ascending order.

use vstd::prelude::*;
use vstd::string::StrSliceExecFns;
use vstd::string::StringExecFns;

verus! {

/// The character of one decimal digit.
pub open spec fn digit_char(d: nat) -> char {
    if d == 0 {
        '0'
    } else if d == 1 {
        '1'
    } else if d == 2 {
        '2'
    } else if d == 3 {
        '3'
    } else if d == 4 {
        '4'
    } else if d == 5 {
        '5'
    } else if d == 6 {
        '6'
    } else if d == 7 {
        '7'
    } else if d == 8 {
        '8'
    } else {
        '9'
    }
}

/// The numeric value of a digit character; 10 for any other character.
pub open spec fn char_digit(c: char) -> nat {
    if c == '0' {
        0
    } else if c == '1' {
        1
    } else if c == '2' {
        2
    } else if c == '3' {
        3
    } else if c == '4' {
        4
    } else if c == '5' {
        5
    } else if c == '6' {
        6
    } else if c == '7' {
        7
    } else if c == '8' {
        8
    } else if c == '9' {
        9
    } else {
        10
    }
}

/// The decimal digits of `n`, most significant first, without leading
/// zeros.
pub open spec fn dec_digits(n: nat) -> Seq<char>
    decreases n,
{
    if n < 10 {
        seq![digit_char(n)]
    } else {
        dec_digits(n / 10).push(digit_char(n % 10))
    }
}

/// Every character of `s` is a decimal digit.
pub open spec fn all_digits(s: Seq<char>) -> bool {
    forall|i: int| 0 <= i < s.len() ==> char_digit(#[trigger] s[i]) < 10
}

/// The value of a digit string, most significant first.
pub open spec fn digits_val(s: Seq<char>) -> nat
    decreases s.len(),
{
    if s.len() == 0 {
        0
    } else {
        digits_val(s.drop_last()) * 10 + char_digit(s.last())
    }
}

/// `s` is a log-file name `<digits>.log` whose digits have value `g`.
pub open spec fn is_log_name(s: Seq<char>, g: u64) -> bool {
    s.len() > 4 && s.drop_last().drop_last().drop_last().drop_last() + ".log"@ == s && all_digits(
        s.take(s.len() - 4),
    ) && digits_val(s.take(s.len() - 4)) == g
}

/// The decimal rendering of `n` is non-empty digits reading back as `n`.
pub proof fn lemma_dec_digits(n: nat)
    ensures
        dec_digits(n).len() > 0,
        all_digits(dec_digits(n)),
        digits_val(dec_digits(n)) == n,
    decreases n,
{
    if n < 10 {
        let s = seq![digit_char(n)];
        assert(s.drop_last() =~= Seq::<char>::empty());
        assert(s.last() == digit_char(n));
        assert(digits_val(s) == digits_val(s.drop_last()) * 10 + char_digit(s.last()));
    } else {
        lemma_dec_digits(n / 10);
        let s = dec_digits(n / 10).push(digit_char(n % 10));
        assert(s.drop_last() =~= dec_digits(n / 10));
        assert(s.last() == digit_char(n % 10));
        assert(char_digit(digit_char(n % 10)) == n % 10);
        assert(n / 10 * 10 + n % 10 == n) by (nonlinear_arith);
        assert forall|i: int| 0 <= i < s.len() implies char_digit(#[trigger] s[i]) < 10 by {
            if i < s.len() - 1 {
                assert(s[i] == dec_digits(n / 10)[i]);
            }
        }
    }
}

/// A longer digit string never has a smaller value.
pub proof fn lemma_digits_val_prefix(s: Seq<char>, j: int)
    requires
        0 <= j <= s.len(),
    ensures
        digits_val(s.take(j)) <= digits_val(s),
    decreases s.len(),
{
    if j < s.len() {
        let dl = s.drop_last();
        assert(s.take(j) =~= dl.take(j));
        lemma_digits_val_prefix(dl, j);
        assert(digits_val(dl) * 10 + char_digit(s.last()) >= digits_val(dl)) by (nonlinear_arith);
    } else {
        assert(s.take(j) =~= s);
    }
}

/// Writes `n` in decimal.
pub fn fmt_u64(n: u64) -> (r: String)
    ensures
        r@ == dec_digits(n as nat),
    decreases n,
{
    let d = n % 10;
    let ds: &str = match d {
        0 => "0",
        1 => "1",
        2 => "2",
        3 => "3",
        4 => "4",
        5 => "5",
        6 => "6",
        7 => "7",
        8 => "8",
        _ => "9",
    };
    proof {
        reveal_strlit("0");
        reveal_strlit("1");
        reveal_strlit("2");
        reveal_strlit("3");
        reveal_strlit("4");
        reveal_strlit("5");
        reveal_strlit("6");
        reveal_strlit("7");
        reveal_strlit("8");
        reveal_strlit("9");
        assert(ds@ =~= seq![digit_char((n % 10) as nat)]);
    }
    if n < 10 {
        let r = ds.to_owned();
        proof {
            assert(r@ =~= dec_digits(n as nat));
        }
        r
    } else {
        let mut s = fmt_u64(n / 10);
        s.append(ds);
        proof {
            assert(s@ =~= dec_digits(n as nat));
        }
        s
    }
}

/// The path of generation `gen`'s log file under `dir`.
pub fn recover_log(dir: &str, gen: u64) -> (r: String)
    ensures
        r@ == dir@ + "/"@ + dec_digits(gen as nat) + ".log"@,
{
    let mut s = dir.to_owned();
    s.append("/");
    let digits = fmt_u64(gen);
    s.append(digits.as_str());
    s.append(".log");
    proof {
        assert(s@ =~= dir@ + "/"@ + dec_digits(gen as nat) + ".log"@);
    }
    s
}

/// Reads a file name of the form `<digits>.log` as its generation.
/// Yields nothing on any other name, and on digits beyond `u64`.
pub fn parse_gen_name(name: &str) -> (r: Option<u64>)
    ensures
        r matches Some(g) ==> is_log_name(name@, g),
        forall|g: u64| #[trigger] is_log_name(name@, g) ==> r == Some(g),
{
    proof {
        reveal_strlit(".log");
    }
    let n = name.unicode_len();
    if n < 5 {
        proof {
            assert forall|g: u64| !is_log_name(name@, g) by {}
        }
        return None;
    }
    let c_dot = name.get_char(n - 4);
    let c_l = name.get_char(n - 3);
    let c_o = name.get_char(n - 2);
    let c_g = name.get_char(n - 1);
    if !(c_dot == '.' && c_l == 'l' && c_o == 'o' && c_g == 'g') {
        proof {
            assert forall|g: u64| !is_log_name(name@, g) by {
                let s = name@;
                if is_log_name(s, g) {
                    let ds = s.drop_last().drop_last().drop_last().drop_last();
                    reveal_strlit(".log");
                    assert(s[s.len() - 4] == (ds + ".log"@)[s.len() - 4]);
                    assert(s[s.len() - 3] == (ds + ".log"@)[s.len() - 3]);
                    assert(s[s.len() - 2] == (ds + ".log"@)[s.len() - 2]);
                    assert(s[s.len() - 1] == (ds + ".log"@)[s.len() - 1]);
                }
            }
        }
        return None;
    }
    let mut i: usize = 0;
    let mut val: u64 = 0;
    while i < n - 4
        invariant
            i <= n - 4,
            5 <= n,
            n == name@.len(),
            name@[n - 4] == '.' && name@[n - 3] == 'l' && name@[n - 2] == 'o' && name@[n - 1]
                == 'g',
            all_digits(name@.take(i as int)),
            val as nat == digits_val(name@.take(i as int)),
        decreases n - 4 - i,
    {
        let c = name.get_char(i);
        let d: u64 = match c {
            '0' => 0,
            '1' => 1,
            '2' => 2,
            '3' => 3,
            '4' => 4,
            '5' => 5,
            '6' => 6,
            '7' => 7,
            '8' => 8,
            '9' => 9,
            _ => {
                proof {
                    assert forall|g: u64| !is_log_name(name@, g) by {
                        if is_log_name(name@, g) {
                            assert(char_digit(name@.take(name@.len() - 4)[i as int]) < 10);
                        }
                    }
                }
                return None;
            },
        };
        let grown = match val.checked_mul(10) {
            Some(v10) => v10.checked_add(d),
            None => None,
        };
        let v2 = match grown {
            Some(v2) => v2,
            None => {
                proof {
                    assert(name@.take(i as int + 1).drop_last() =~= name@.take(i as int));
                    assert(digits_val(name@.take(i as int + 1)) > u64::MAX);
                    assert forall|g: u64| !is_log_name(name@, g) by {
                        if is_log_name(name@, g) {
                            lemma_digits_val_prefix(name@.take(name@.len() - 4), i as int + 1);
                            assert(name@.take(name@.len() - 4).take(i as int + 1) =~= name@.take(
                                i as int + 1,
                            ));
                        }
                    }
                }
                return None;
            },
        };
        proof {
            assert(name@.take(i as int + 1).drop_last() =~= name@.take(i as int));
            assert(name@.take(i as int + 1).last() == name@[i as int]);
            assert(char_digit(name@[i as int]) == d);
            assert forall|t: int|
                0 <= t < i + 1 implies char_digit(#[trigger] name@.take(i as int + 1)[t])
                < 10 by {
                if t < i {
                    assert(name@.take(i as int + 1)[t] == name@.take(i as int)[t]);
                }
            }
        }
        val = v2;
        i += 1;
    }
    proof {
        let s = name@;
        let ds = s.take(s.len() - 4);
        reveal_strlit(".log");
        assert(ds + ".log"@ =~= s);
        assert(ds =~= s.drop_last().drop_last().drop_last().drop_last());
        assert(is_log_name(s, val));
        assert forall|g: u64| #[trigger] is_log_name(s, g) implies g == val by {}
    }
    Some(val)
}

/// Some listed name is the log file of generation `g`.
pub open spec fn listed_from(names: Seq<String>, g: u64) -> bool {
    exists|j: int| 0 <= j < names.len() && is_log_name((#[trigger] names[j])@, g)
}

/// The ascending list of generations named by the given file names,
/// without repetition; names that are not `<digits>.log` are ignored.
pub fn gen_file_list(names: &Vec<String>) -> (r: Vec<u64>)
    ensures
        forall|x: int, y: int| 0 <= x < y < r@.len() ==> r@[x] < r@[y],
        forall|x: int| 0 <= x < r@.len() ==> listed_from(names@, #[trigger] r@[x]),
        forall|j: int, g: u64|
            0 <= j < names@.len() && #[trigger] is_log_name(names@[j]@, g) ==> r@.contains(g),
{
    let mut out: Vec<u64> = Vec::new();
    let mut j: usize = 0;
    while j < names.len()
        invariant
            j <= names@.len(),
            forall|x: int, y: int| 0 <= x < y < out@.len() ==> out@[x] < out@[y],
            forall|x: int| 0 <= x < out@.len() ==> listed_from(names@, #[trigger] out@[x]),
            forall|t: int, g: u64|
                0 <= t < j && #[trigger] is_log_name(names@[t]@, g) ==> out@.contains(g),
        decreases names@.len() - j,
    {
        if let Some(g) = parse_gen_name(names[j].as_str()) {
            let ghost before = out@;
            let mut pos: usize = 0;
            while pos < out.len() && out[pos] < g
                invariant
                    pos <= out@.len(),
                    out@ == before,
                    forall|x: int, y: int| 0 <= x < y < out@.len() ==> out@[x] < out@[y],
                    forall|x: int| 0 <= x < pos ==> out@[x] < g,
                decreases out@.len() - pos,
            {
                pos += 1;
            }
            if pos == out.len() || *vstd::std_specs::vec::vec_index(&out, pos) != g {
                out.insert(pos, g);
                proof {
                    assert forall|x: int, y: int|
                        0 <= x < y < out@.len() implies out@[x] < out@[y] by {
                        assert(out@ == before.insert(pos as int, g));
                    }
                    assert(out@.contains(g)) by {
                        assert(out@[pos as int] == g);
                    }
                    assert forall|x: int|
                        0 <= x < out@.len() implies listed_from(names@, #[trigger] out@[x]) by {
                        if x < pos {
                            assert(out@[x] == before[x]);
                        } else if x > pos {
                            assert(out@[x] == before[x - 1]);
                        } else {
                            assert(is_log_name((names@[j as int])@, g));
                        }
                    }
                    assert forall|t: int, g2: u64|
                        0 <= t < j + 1 && #[trigger] is_log_name(names@[t]@, g2) implies
                        out@.contains(g2) by {
                        if t < j {
                            let x = choose|x: int| 0 <= x < before.len() && before[x] == g2;
                            if x < pos {
                                assert(out@[x] == g2);
                            } else {
                                assert(out@[x + 1] == g2);
                            }
                        }
                    }
                }
            } else {
                proof {
                    assert(out@.contains(g)) by {
                        assert(out@[pos as int] == g);
                    }
                    assert forall|t: int, g2: u64|
                        0 <= t < j + 1 && #[trigger] is_log_name(names@[t]@, g2) implies
                        out@.contains(g2) by {
                        if t == j {
                            assert(g2 == g);
                        }
                    }
                }
            }
        } else {
            proof {
                assert forall|t: int, g2: u64|
                    0 <= t < j + 1 && #[trigger] is_log_name(names@[t]@, g2) implies out@.contains(
                    g2,
                ) by {}
            }
        }
        j += 1;
    }
    out
}

} // verus!
