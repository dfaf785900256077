//! Page-view counts: reading a dump line `<domain> <page> <count> ...` and
//! adding its count to the store under the text key `<domain>/<page>`.

use vstd::prelude::*;
use crate::error::{DecodeError, KvFailure, KvResult};
use crate::laws::law_read_after_insert;
use crate::store::{insert_model, key_fits, lookup, KvStore, StoreModel};
use crate::values::{Key, KeyModel, OwnedValue, ValueModel};

verus! {

/// The whitespace that `split_ascii_whitespace` splits at.
pub open spec fn is_ascii_ws(c: char) -> bool {
    c == ' ' || c == '\t' || c == '\n' || c == '\x0C' || c == '\r'
}

/// The first position at or after `i` that is not whitespace.
pub open spec fn skip_ws(s: Seq<char>, i: int) -> int
    decreases s.len() - i,
{
    if 0 <= i < s.len() && is_ascii_ws(s[i]) {
        skip_ws(s, i + 1)
    } else {
        i
    }
}

/// The first position at or after `i` that is whitespace, or the end.
pub open spec fn word_end(s: Seq<char>, i: int) -> int
    decreases s.len() - i,
{
    if 0 <= i < s.len() && !is_ascii_ws(s[i]) {
        word_end(s, i + 1)
    } else {
        i
    }
}

/// The span of the next whitespace-separated word from `i` on, if any.
pub open spec fn next_word(s: Seq<char>, i: int) -> Option<(int, int)> {
    if skip_ws(s, i) >= s.len() {
        None
    } else {
        Some((skip_ws(s, i), word_end(s, skip_ws(s, i))))
    }
}

/// The value of an ASCII digit.
pub open spec fn digit_value(c: char) -> int {
    c as int - '0' as int
}

/// Every character is an ASCII digit.
pub open spec fn all_digits(s: Seq<char>) -> bool {
    forall|i: int| 0 <= i < s.len() ==> '0' <= #[trigger] s[i] <= '9'
}

/// The decimal value of a run of digits.
pub open spec fn digits_value(s: Seq<char>) -> int
    decreases s.len(),
{
    if s.len() == 0 {
        0
    } else {
        10 * digits_value(s.drop_last()) + digit_value(s.last())
    }
}

/// What `i64::from_str` gives, as std documents it: an optional `+` or `-`
/// and then one or more ASCII digits whose value fits in an `i64`.
pub open spec fn parse_i64_spec(s: Seq<char>) -> Option<i64> {
    let negative = s.len() > 0 && s[0] == '-';
    let digits = if s.len() > 0 && (s[0] == '-' || s[0] == '+') {
        s.drop_first()
    } else {
        s
    };
    let value = if negative {
        -digits_value(digits)
    } else {
        digits_value(digits)
    };
    if digits.len() == 0 || !all_digits(digits) || value < i64::MIN || value > i64::MAX {
        None
    } else {
        Some(value as i64)
    }
}

/// The key and the count of a dump line: its first two words joined by `/`,
/// and its third word read as an integer; `None` when the line has fewer
/// than three words or the third is not an integer.
pub open spec fn pageview_of_line(s: Seq<char>) -> Option<(Seq<char>, i64)> {
    match next_word(s, 0) {
        None => None,
        Some((a1, b1)) => match next_word(s, b1) {
            None => None,
            Some((a2, b2)) => match next_word(s, b2) {
                None => None,
                Some((a3, b3)) => match parse_i64_spec(s.subrange(a3, b3)) {
                    None => None,
                    Some(n) => Some((s.subrange(a1, b1) + seq!['/'] + s.subrange(a2, b2), n)),
                },
            },
        },
    }
}

/// Whitespace as `split_ascii_whitespace` sees it.
fn char_is_ascii_ws(c: char) -> (r: bool)
    ensures
        r == is_ascii_ws(c),
{
    c == ' ' || c == '\t' || c == '\n' || c == '\x0C' || c == '\r'
}

/// Every value of a run of digits is at least the value of its prefix.
proof fn lemma_digits_value_nonneg(s: Seq<char>)
    requires
        all_digits(s),
    ensures
        digits_value(s) >= 0,
    decreases s.len(),
{
    if s.len() > 0 {
        assert(all_digits(s.drop_last())) by {
            assert forall|i: int| 0 <= i < s.drop_last().len() implies '0' <= #[trigger] s.drop_last()[i]
                <= '9' by {
                assert(s.drop_last()[i] == s[i]);
            }
        }
        lemma_digits_value_nonneg(s.drop_last());
        assert('0' <= s[s.len() - 1] <= '9');
    }
}

/// Reads a decimal `i64` as `i64::from_str` does.
pub fn parse_i64(s: &[char]) -> (r: Option<i64>)
    ensures
        r == parse_i64_spec(s@),
{
    let n = s.len();
    let negative = n > 0 && s[0] == '-';
    let start: usize = if n > 0 && (s[0] == '-' || s[0] == '+') {
        1
    } else {
        0
    };
    let ghost digits = if n > 0 && (s@[0] == '-' || s@[0] == '+') {
        s@.drop_first()
    } else {
        s@
    };
    proof {
        assert(digits =~= s@.subrange(start as int, n as int));
    }
    if start == n {
        return None;
    }
    // The value of the digits read so far, capped at `cap`.
    let cap: u128 = 0x8000_0000_0000_0001;
    let mut acc: u128 = 0;
    let mut i: usize = start;
    while i < n
        invariant
            start <= i <= n,
            n == s@.len(),
            digits =~= s@.subrange(start as int, n as int),
            digits == (if s@.len() > 0 && (s@[0] == '-' || s@[0] == '+') {
                s@.drop_first()
            } else {
                s@
            }),
            negative == (s@.len() > 0 && s@[0] == '-'),
            cap == 0x8000_0000_0000_0001u128,
            all_digits(s@.subrange(start as int, i as int)),
            acc as int == if digits_value(s@.subrange(start as int, i as int)) < cap {
                digits_value(s@.subrange(start as int, i as int))
            } else {
                cap as int
            },
        decreases n - i,
    {
        let c = s[i];
        if !('0' <= c && c <= '9') {
            proof {
                let k = i - start;
                assert(digits[k] == c);
                assert(!('0' <= digits[k] <= '9'));
                assert(!all_digits(digits));
                assert(parse_i64_spec(s@) is None);
            }
            return None;
        }
        let d = (c as u32 - '0' as u32) as u128;
        let ghost prefix = s@.subrange(start as int, i as int);
        let ghost next = s@.subrange(start as int, i + 1);
        proof {
            assert(next.drop_last() =~= prefix);
            assert(next.last() == c);
            assert(all_digits(next)) by {
                assert forall|k: int| 0 <= k < next.len() implies '0' <= #[trigger] next[k] <= '9' by {
                    if k < prefix.len() {
                        assert(next[k] == prefix[k]);
                    }
                }
            }
            lemma_digits_value_nonneg(prefix);
            assert(digit_value(c) == d);
        }
        let grown = acc * 10 + d;
        acc = if grown < cap {
            grown
        } else {
            cap
        };
        proof {
            let v = digits_value(prefix);
            assert(digits_value(next) == 10 * v + d);
            if v >= cap {
                assert(10 * v + d >= cap) by (nonlinear_arith)
                    requires
                        v >= cap,
                        d >= 0,
                        cap > 0,
                ;
            }
        }
        i += 1;
    }
    proof {
        assert(s@.subrange(start as int, n as int) =~= digits);
        lemma_digits_value_nonneg(digits);
    }
    if negative {
        if acc > 0x8000_0000_0000_0000u128 {
            None
        } else {
            let magnitude = acc as i128;
            Some((0 - magnitude) as i64)
        }
    } else {
        if acc > 0x7fff_ffff_ffff_ffffu128 {
            None
        } else {
            Some(acc as i64)
        }
    }
}

/// The characters of a text.
pub(crate) fn chars_of(s: &str) -> (v: Vec<char>)
    ensures
        v@ == s@,
{
    broadcast use vstd::string::group_string_axioms;

    let mut v: Vec<char> = Vec::new();
    for c in it: s.chars()
        invariant
            v@ == it.history(),
    {
        v.push(c);
    }
    v
}

/// The first position at or after `i` that is not whitespace.
fn skip_ws_exec(s: &Vec<char>, i: usize) -> (r: usize)
    requires
        i <= s@.len(),
    ensures
        r as int == skip_ws(s@, i as int),
        i <= r <= s@.len(),
        r < s@.len() ==> !is_ascii_ws(s@[r as int]),
{
    let mut j = i;
    while j < s.len() && char_is_ascii_ws(s[j])
        invariant
            i <= j <= s@.len(),
            skip_ws(s@, j as int) == skip_ws(s@, i as int),
        decreases s@.len() - j,
    {
        j += 1;
    }
    j
}

/// The first position at or after `i` that is whitespace, or the end.
fn word_end_exec(s: &Vec<char>, i: usize) -> (r: usize)
    requires
        i <= s@.len(),
    ensures
        r as int == word_end(s@, i as int),
        i <= r <= s@.len(),
        i < s@.len() && !is_ascii_ws(s@[i as int]) ==> i < r,
{
    let mut j = i;
    while j < s.len() && !char_is_ascii_ws(s[j])
        invariant
            i <= j <= s@.len(),
            word_end(s@, j as int) == word_end(s@, i as int),
        decreases s@.len() - j,
    {
        j += 1;
    }
    j
}

/// The span of the next word from `i` on, if any.
fn next_word_exec(s: &Vec<char>, i: usize) -> (r: Option<(usize, usize)>)
    requires
        i <= s@.len(),
    ensures
        match r {
            Some((a, b)) => next_word(s@, i as int) == Some((a as int, b as int)) && i <= a < b <= s@.len(),
            None => next_word(s@, i as int) is None,
        },
{
    let a = skip_ws_exec(s, i);
    if a >= s.len() {
        return None;
    }
    let b = word_end_exec(s, a);
    Some((a, b))
}

/// Reads the key and the count of a dump line `<domain> <page> <count> ...`
/// (words separated by ASCII whitespace): the key is `<domain>/<page>` and the
/// count the third word read as an `i64`. `None` when the line has fewer
/// than three words or the third is not an integer; later words are ignored.
pub fn parse_pageview_line(line: &str) -> (r: Option<(String, i64)>)
    ensures
        match r {
            Some((key, count)) => pageview_of_line(line@) == Some((key@, count)),
            None => pageview_of_line(line@) is None,
        },
{
    let chars = chars_of(line);
    let (a1, b1) = match next_word_exec(&chars, 0) {
        Some(p) => p,
        None => return None,
    };
    let (a2, b2) = match next_word_exec(&chars, b1) {
        Some(p) => p,
        None => return None,
    };
    let (a3, b3) = match next_word_exec(&chars, b2) {
        Some(p) => p,
        None => return None,
    };
    let count = match parse_i64(&chars.as_slice()[a3..b3]) {
        Some(c) => c,
        None => return None,
    };
    let mut key: String = line.substring_char(a1, b1).to_owned();
    key.append("/");
    key.append(line.substring_char(a2, b2));
    proof {
        reveal_strlit("/");
        assert(key@ =~= line@.subrange(a1 as int, b1 as int) + seq!['/'] + line@.subrange(a2 as int, b2 as int));
    }
    Some((key, count))
}

/// The store after adding `count` views under `k`. In a first file the count
/// is written as it is; otherwise it is added to a stored integer, written
/// as it is under a new key, and a stored value of another kind is left alone.
pub open spec fn add_views_model(m: StoreModel, k: KeyModel, count: i64, first_file: bool) -> Result<StoreModel, KvFailure> {
    if first_file {
        Ok(insert_model(m, k, ValueModel::Integer(count)))
    } else {
        match lookup(m, k) {
            Err(e) => Err(KvFailure::Corrupted(e)),
            Ok(None) => Ok(insert_model(m, k, ValueModel::Integer(count))),
            Ok(Some(ValueModel::Integer(prev))) => Ok(insert_model(m, k, ValueModel::Integer((prev + count) as i64))),
            Ok(Some(_)) => Ok(m),
        }
    }
}

/// A first file's count is what a page then reads; a later file's count is
/// added to the page's stored integer (whatever the two are, as long as the
/// sum fits), and is what a page not yet stored then reads.
pub proof fn law_views_add_up(m: StoreModel, k: KeyModel, count: i64)
    ensures
        add_views_model(m, k, count, true) matches Ok(m2) && lookup(m2, k) == Ok::<
            Option<ValueModel>,
            DecodeError,
        >(Some(ValueModel::Integer(count))),
        lookup(m, k) matches Ok(Some(ValueModel::Integer(prev))) ==> (i64::MIN <= prev + count <= i64::MAX
            ==> (add_views_model(m, k, count, false) matches Ok(m2) && lookup(m2, k) == Ok::<
            Option<ValueModel>,
            DecodeError,
        >(Some(ValueModel::Integer((prev + count) as i64))))),
        lookup(m, k) == Ok::<Option<ValueModel>, DecodeError>(None) ==> (add_views_model(m, k, count, false) matches Ok(
            m2,
        ) && lookup(m2, k) == Ok::<Option<ValueModel>, DecodeError>(Some(ValueModel::Integer(count)))),
{
    law_read_after_insert(m, k, ValueModel::Integer(count));
    if let Ok(Some(ValueModel::Integer(prev))) = lookup(m, k) {
        law_read_after_insert(m, k, ValueModel::Integer((prev + count) as i64));
    }
}

/// Adds `count` views under `key`, as `add_views_model` says; fails,
/// changing nothing, when the stored value does not decode.
pub fn add_page_views(store: &mut KvStore, key: Key, count: i64, first_file: bool) -> (r: KvResult<()>)
    requires
        old(store).wf(),
        key_fits(key@),
        !first_file ==> (lookup(old(store)@, key@) matches Ok(Some(ValueModel::Integer(prev)))
            ==> i64::MIN <= prev + count <= i64::MAX),
    ensures
        final(store).wf(),
        match (r, add_views_model(old(store)@, key@, count, first_file)) {
            (Ok(()), Ok(m)) => final(store)@ == m,
            (Err(e), Err(f)) => crate::error::reports(e, f) && final(store)@ == old(store)@,
            _ => false,
        },
        first_file ==> r is Ok && lookup(final(store)@, key@) == Ok::<Option<ValueModel>, DecodeError>(
            Some(ValueModel::Integer(count)),
        ),
        !first_file ==> (lookup(old(store)@, key@) matches Ok(Some(ValueModel::Integer(prev))) ==> r is Ok
            && lookup(final(store)@, key@) == Ok::<Option<ValueModel>, DecodeError>(
            Some(ValueModel::Integer((prev + count) as i64)),
        )),
        !first_file && lookup(old(store)@, key@) == Ok::<Option<ValueModel>, DecodeError>(None) ==> r is Ok
            && lookup(final(store)@, key@) == Ok::<Option<ValueModel>, DecodeError>(
            Some(ValueModel::Integer(count)),
        ),
{
    proof {
        law_views_add_up(old(store)@, key@, count);
    }
    if first_file {
        store.insert(key, OwnedValue::Integer(count));
        return Ok(());
    }
    match store.get_owned(&key) {
        Ok(Some(OwnedValue::Integer(prev))) => {
            store.insert(key, OwnedValue::Integer(prev + count));
            Ok(())
        },
        Ok(Some(_)) => Ok(()),
        Ok(None) => {
            store.insert(key, OwnedValue::Integer(count));
            Ok(())
        },
        Err(e) => Err(e),
    }
}

} // verus!
