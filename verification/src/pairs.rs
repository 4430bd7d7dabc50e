//! Parsing and validation of `old:new` identity pairs, and construction of
//! the identity maps.

use crate::util::emit;
use crate::views_of;
use std::collections::HashMap;
use vstd::prelude::*;

verus! {

/// An error raised while parsing or validating identity pairs. All of these
/// are pre-flight errors: any one of them aborts a run before any filesystem
/// mutation happens.
#[derive(Debug)]
pub enum PairError {
    /// A pair string is not two `:`-separated non-negative integers.
    Format,
    /// The same old id appears twice with two different new ids.
    DuplicateOldId { id: u32 },
    /// Some id value occurs more than once across all old/new columns of the
    /// uid and gid pair lists. Holds each repeated occurrence, in the order
    /// the flattened id list shows them.
    DuplicateId { ids: Vec<String> },
}

/// Contains a relationship of a current uid/gid to a new uid/gid.
#[derive(Debug)]
pub struct Idpair {
    /// This id will be overwritten by `new_id`.
    pub current_id: u32,
    /// The new id for the object.
    pub new_id: u32,
}

/// A decimal digit.
pub open spec fn is_digit_char(c: char) -> bool {
    48 <= c as u32 && c as u32 <= 57
}

/// The numeric value of one decimal digit.
pub open spec fn digit_val(c: char) -> nat {
    (c as u32 - 48) as nat
}

/// Every character of `s` is a decimal digit.
pub open spec fn all_digits(s: Seq<char>) -> bool {
    forall|i: int| 0 <= i < s.len() ==> is_digit_char(#[trigger] s[i])
}

/// The value of a digit string read in base ten.
pub open spec fn digits_val(s: Seq<char>) -> nat
    decreases s.len(),
{
    if s.len() == 0 {
        0
    } else {
        digits_val(s.drop_last()) * 10 + digit_val(s.last())
    }
}

/// The digits of a numeric field: everything after an optional leading `+`.
pub open spec fn digits_part(s: Seq<char>) -> Seq<char> {
    if s.len() > 0 && s[0] == '+' {
        s.skip(1)
    } else {
        s
    }
}

/// `s` is a well-formed non-negative integer that fits in 32 bits: an
/// optional `+` sign, then at least one decimal digit.
pub open spec fn is_u32_field(s: Seq<char>) -> bool {
    &&& digits_part(s).len() > 0
    &&& all_digits(digits_part(s))
    &&& digits_val(digits_part(s)) <= u32::MAX
}

/// The value a well-formed numeric field denotes.
pub open spec fn field_val(s: Seq<char>) -> nat {
    digits_val(digits_part(s))
}

/// Position `i` holds the only colon of `s`.
pub open spec fn single_colon_at(s: Seq<char>, i: int) -> bool {
    &&& 0 <= i < s.len()
    &&& s[i] == ':'
    &&& forall|j: int| 0 <= j < s.len() && j != i ==> #[trigger] s[j] != ':'
}

/// A pair string: exactly one colon, with a well-formed numeric field on
/// each side.
pub open spec fn valid_pair_string(s: Seq<char>) -> bool {
    exists|i: int|
        {
            &&& #[trigger] single_colon_at(s, i)
            &&& is_u32_field(s.subrange(0, i))
            &&& is_u32_field(s.subrange(i + 1, s.len() as int))
        }
}

/// The position of the unique colon of a pair string.
pub open spec fn colon_idx(s: Seq<char>) -> int {
    choose|i: int| single_colon_at(s, i)
}

/// The old id a valid pair string names (its left field).
pub open spec fn pair_old_val(s: Seq<char>) -> nat {
    field_val(s.subrange(0, colon_idx(s)))
}

/// The new id a valid pair string names (its right field).
pub open spec fn pair_new_val(s: Seq<char>) -> nat {
    field_val(s.subrange(colon_idx(s) + 1, s.len() as int))
}

/// A string has at most one position holding its only colon.
pub proof fn lemma_single_colon_unique(s: Seq<char>, i: int, j: int)
    requires
        single_colon_at(s, i),
        single_colon_at(s, j),
    ensures
        i == j,
{
}

/// The value of a digit string is at least the value of any of its prefixes.
proof fn lemma_digits_val_prefix_le(s: Seq<char>, k: int)
    requires
        0 <= k <= s.len(),
    ensures
        digits_val(s.subrange(0, k)) <= digits_val(s),
    decreases s.len() - k,
{
    if k < s.len() {
        assert(s.subrange(0, k + 1).drop_last() =~= s.subrange(0, k));
        assert(digits_val(s.subrange(0, k)) <= digits_val(s.subrange(0, k + 1)));
        lemma_digits_val_prefix_le(s, k + 1);
    } else {
        assert(s.subrange(0, k) =~= s);
    }
}

/// Finds the position of the only colon of `s`, if `s` has exactly one.
fn find_single_colon(s: &str) -> (r: Option<usize>)
    ensures
        match r {
            Some(i) => single_colon_at(s@, i as int),
            None => forall|i: int| !single_colon_at(s@, i),
        },
{
    let n: usize = s.unicode_len();
    let mut found: Option<usize> = None;
    let mut i: usize = 0;
    while i < n
        invariant
            i <= n,
            n == s@.len(),
            match found {
                Some(k) => k < i && s@[k as int] == ':' && forall|j: int|
                    0 <= j < i && j != k ==> #[trigger] s@[j] != ':',
                None => forall|j: int| 0 <= j < i ==> #[trigger] s@[j] != ':',
            },
        decreases n - i,
    {
        let c = s.get_char(i);
        if c == ':' {
            match found {
                Some(k) => {
                    proof {
                        assert forall|m: int| !single_colon_at(s@, m) by {
                            if single_colon_at(s@, m) {
                                assert(s@[k as int] == ':');
                                assert(s@[i as int] == ':');
                            }
                        }
                    }
                    return None;
                },
                None => {
                    found = Some(i);
                },
            }
        }
        i += 1;
    }
    found
}

/// Parses the characters of `s` at positions `from..to` as a non-negative
/// 32-bit integer: an optional leading `+`, then at least one decimal digit.
fn parse_u32_field(s: &str, from: usize, to: usize) -> (r: Option<u32>)
    requires
        from <= to <= s@.len(),
    ensures
        ({
            let f = s@.subrange(from as int, to as int);
            match r {
                Some(v) => is_u32_field(f) && v == field_val(f),
                None => !is_u32_field(f),
            }
        }),
{
    let ghost f = s@.subrange(from as int, to as int);
    let mut dfrom: usize = from;
    if from < to && s.get_char(from) == '+' {
        dfrom = from + 1;
    }
    let ghost d = s@.subrange(dfrom as int, to as int);
    proof {
        assert(digits_part(f) =~= d);
    }
    if dfrom == to {
        return None;
    }
    let mut val: u32 = 0;
    let mut j: usize = dfrom;
    while j < to
        invariant
            dfrom <= j <= to <= s@.len(),
            from <= dfrom,
            d == s@.subrange(dfrom as int, to as int),
            digits_part(s@.subrange(from as int, to as int)) == d,
            all_digits(s@.subrange(dfrom as int, j as int)),
            val == digits_val(s@.subrange(dfrom as int, j as int)),
        decreases to - j,
    {
        let ghost prev = s@.subrange(dfrom as int, j as int);
        let c = s.get_char(j);
        let cv = c as u32;
        proof {
            assert(s@.subrange(dfrom as int, j + 1).drop_last() =~= prev);
            assert(d[j - dfrom] == s@[j as int]);
        }
        if cv < 48 || cv > 57 {
            assert(!all_digits(d));
            return None;
        }
        let dig = cv - 48;
        if val > (u32::MAX - dig) / 10 {
            proof {
                let cur = s@.subrange(dfrom as int, j + 1);
                let m = u32::MAX as int;
                assert(digits_val(cur) == digits_val(prev) * 10 + digit_val(c));
                assert((m - dig) == 10 * ((m - dig) / 10) + (m - dig) % 10) by {
                    vstd::arithmetic::div_mod::lemma_fundamental_div_mod(m - dig, 10);
                }
                assert(digits_val(prev) * 10 > m - dig) by (nonlinear_arith)
                    requires
                        digits_val(prev) > (m - dig) / 10,
                        (m - dig) == 10 * ((m - dig) / 10) + (m - dig) % 10,
                        0 <= (m - dig) % 10 < 10,
                ;
                assert(digits_val(cur) > m);
                lemma_digits_val_prefix_le(d, j + 1 - dfrom);
                assert(cur =~= d.subrange(0, j + 1 - dfrom));
                assert(digits_val(d) > m);
            }
            return None;
        }
        proof {
            let m = u32::MAX as int;
            assert((m - dig) == 10 * ((m - dig) / 10) + (m - dig) % 10) by {
                vstd::arithmetic::div_mod::lemma_fundamental_div_mod(m - dig, 10);
            }
            assert(val * 10 <= 10 * ((m - dig) / 10)) by (nonlinear_arith)
                requires
                    val <= (m - dig) / 10,
                    0 <= val,
            ;
            assert(val * 10 + dig <= m);
        }
        val = val * 10 + dig;
        j += 1;
    }
    proof {
        assert(s@.subrange(dfrom as int, j as int) =~= d);
    }
    Some(val)
}

impl Idpair {
    /// Parses an idpair from a string of the form `old:new`, such as
    /// `"57:211790"`. A malformed string is a `PairError::Format`; a pair
    /// whose two ids are equal is recognized and returned as `None` rather
    /// than an error, so callers can drop it silently.
    pub fn from_string(idpair: &str) -> (r: Result<Option<Idpair>, PairError>)
        ensures
            match r {
                Ok(Some(p)) => {
                    &&& valid_pair_string(idpair@)
                    &&& pair_old_val(idpair@) != pair_new_val(idpair@)
                    &&& p.current_id == pair_old_val(idpair@)
                    &&& p.new_id == pair_new_val(idpair@)
                },
                Ok(None) => valid_pair_string(idpair@) && pair_old_val(idpair@) == pair_new_val(
                    idpair@,
                ),
                Err(e) => !valid_pair_string(idpair@) && e matches PairError::Format,
            },
    {
        let n: usize = idpair.unicode_len();
        let ci = match find_single_colon(idpair) {
            Some(ci) => ci,
            None => {
                return Err(PairError::Format);
            },
        };
        let current_id = match parse_u32_field(idpair, 0, ci) {
            Some(v) => v,
            None => {
                proof {
                    assert forall|m: int| single_colon_at(idpair@, m) implies m == ci as int by {
                        lemma_single_colon_unique(idpair@, m, ci as int);
                    }
                }
                return Err(PairError::Format);
            },
        };
        let new_id = match parse_u32_field(idpair, ci + 1, n) {
            Some(v) => v,
            None => {
                proof {
                    assert forall|m: int| single_colon_at(idpair@, m) implies m == ci as int by {
                        lemma_single_colon_unique(idpair@, m, ci as int);
                    }
                }
                return Err(PairError::Format);
            },
        };
        proof {
            lemma_single_colon_unique(idpair@, colon_idx(idpair@), ci as int);
        }
        if current_id == new_id {
            Ok(None)
        } else {
            Ok(Some(Idpair { current_id, new_id }))
        }
    }
}

/// What building an identity map from a list of pair strings yields,
/// processing pairs left to right: a malformed pair is a format error; a
/// self-mapping pair is skipped; an old id already mapped to a different new
/// id is a duplicate-old-id error; otherwise the pair is inserted.
pub open spec fn map_from_pairs_spec(pairs: Seq<Seq<char>>) -> Result<Map<u32, u32>, PairError>
    decreases pairs.len(),
{
    if pairs.len() == 0 {
        Ok(Map::empty())
    } else {
        match map_from_pairs_spec(pairs.drop_last()) {
            Err(e) => Err(e),
            Ok(m) => {
                let p = pairs.last();
                if !valid_pair_string(p) {
                    Err(PairError::Format)
                } else if pair_old_val(p) == pair_new_val(p) {
                    Ok(m)
                } else {
                    let old_id = pair_old_val(p) as u32;
                    let new_id = pair_new_val(p) as u32;
                    if m.contains_key(old_id) {
                        if m[old_id] == new_id {
                            Ok(m)
                        } else {
                            Err(PairError::DuplicateOldId { id: old_id })
                        }
                    } else {
                        Ok(m.insert(old_id, new_id))
                    }
                }
            },
        }
    }
}

/// Once a prefix of the pair list has failed, the whole list fails the same
/// way.
proof fn lemma_map_from_pairs_err_prefix(pairs: Seq<Seq<char>>, k: int)
    requires
        0 <= k <= pairs.len(),
        map_from_pairs_spec(pairs.take(k)) matches Err(_),
    ensures
        map_from_pairs_spec(pairs) == map_from_pairs_spec(pairs.take(k)),
    decreases pairs.len() - k,
{
    if k < pairs.len() {
        assert(pairs.take(k + 1).drop_last() =~= pairs.take(k));
        assert(pairs.take(k + 1).last() == pairs[k]);
        lemma_map_from_pairs_err_prefix(pairs, k + 1);
    } else {
        assert(pairs.take(k) =~= pairs);
    }
}

/// Returns a map where each entry comes from one idpair: the key is the
/// current id and the value is the new id. A self-mapping pair is skipped
/// with an informational note; an old id given two different new ids is an
/// error.
pub fn get_map_from_pairs(pairs: Vec<String>) -> (r: Result<HashMap<u32, u32>, PairError>)
    ensures
        match r {
            Ok(m) => map_from_pairs_spec(views_of(pairs@)) == Ok::<Map<u32, u32>, PairError>(m@),
            Err(e) => map_from_pairs_spec(views_of(pairs@)) == Err::<Map<u32, u32>, PairError>(e),
        },
{
    let ghost vs = views_of(pairs@);
    let mut idmap: HashMap<u32, u32> = HashMap::new();
    let mut i: usize = 0;
    while i < pairs.len()
        invariant
            i <= pairs.len(),
            vs == views_of(pairs@),
            map_from_pairs_spec(vs.take(i as int)) == Ok::<Map<u32, u32>, PairError>(idmap@),
        decreases pairs.len() - i,
    {
        let pair = &pairs[i];
        proof {
            assert(vs.take(i + 1).drop_last() =~= vs.take(i as int));
            assert(vs.take(i + 1).last() == pair@);
        }
        match Idpair::from_string(pair.as_str()) {
            Err(_) => {
                proof {
                    lemma_map_from_pairs_err_prefix(vs, i + 1);
                }
                return Err(PairError::Format);
            },
            Ok(None) => {
                let mut note = String::from_str("Skipping idpair with identical old and new id: ");
                note.append(pair.as_str());
                emit(note.as_str());
            },
            Ok(Some(u)) => {
                let existing = idmap.get(&u.current_id);
                match existing {
                    Some(v) => {
                        if *v != u.new_id {
                            proof {
                                lemma_map_from_pairs_err_prefix(vs, i + 1);
                            }
                            return Err(PairError::DuplicateOldId { id: u.current_id });
                        }
                    },
                    None => {
                        idmap.insert(u.current_id, u.new_id);
                    },
                }
            },
        }
        i += 1;
    }
    proof {
        assert(vs.take(pairs@.len() as int) =~= vs);
    }
    Ok(idmap)
}

/// A valid pair string has well-formed fields around its unique colon, and
/// both field values fit in 32 bits.
pub proof fn lemma_valid_pair_fields(s: Seq<char>)
    requires
        valid_pair_string(s),
    ensures
        single_colon_at(s, colon_idx(s)),
        is_u32_field(s.subrange(0, colon_idx(s))),
        is_u32_field(s.subrange(colon_idx(s) + 1, s.len() as int)),
        pair_old_val(s) <= u32::MAX,
        pair_new_val(s) <= u32::MAX,
{
    let w = choose|i: int|
        {
            &&& #[trigger] single_colon_at(s, i)
            &&& is_u32_field(s.subrange(0, i))
            &&& is_u32_field(s.subrange(i + 1, s.len() as int))
        };
    lemma_single_colon_unique(s, w, colon_idx(s));
}

/// Law: for a list of valid pair strings whose id values never collide
/// across two different pairs, building the identity map succeeds, the map
/// holds exactly the non-self pairs, and every self pair is dropped without
/// error.
pub proof fn lemma_build_map_exact(pairs: Seq<Seq<char>>)
    requires
        forall|i: int| 0 <= i < pairs.len() ==> valid_pair_string(#[trigger] pairs[i]),
        forall|i: int, j: int|
            0 <= i < pairs.len() && 0 <= j < pairs.len() && i != j ==> {
                &&& pair_old_val(#[trigger] pairs[i]) != pair_old_val(#[trigger] pairs[j])
                &&& pair_old_val(pairs[i]) != pair_new_val(pairs[j])
                &&& pair_new_val(pairs[i]) != pair_new_val(pairs[j])
            },
    ensures
        map_from_pairs_spec(pairs) matches Ok(m) && {
            &&& forall|i: int|
                0 <= i < pairs.len() && pair_old_val(#[trigger] pairs[i]) != pair_new_val(pairs[i])
                    ==> m.contains_key(pair_old_val(pairs[i]) as u32) && m[pair_old_val(pairs[i])
                    as u32] == pair_new_val(pairs[i]) as u32
            &&& forall|k: u32|
                #[trigger] m.contains_key(k) ==> exists|i: int|
                    0 <= i < pairs.len() && pair_old_val(#[trigger] pairs[i]) as u32 == k
                        && pair_old_val(pairs[i]) != pair_new_val(pairs[i])
        },
    decreases pairs.len(),
{
    if pairs.len() > 0 {
        let prefix = pairs.drop_last();
        assert(forall|i: int| 0 <= i < prefix.len() ==> prefix[i] == pairs[i]);
        lemma_build_map_exact(prefix);
        let p = pairs.last();
        let m0 = map_from_pairs_spec(prefix)->Ok_0;
        let n = pairs.len() - 1;
        assert(forall|i: int| 0 <= i < pairs.len() ==> pair_old_val(#[trigger] pairs[i])
            <= u32::MAX && pair_new_val(pairs[i]) <= u32::MAX) by {
            assert forall|i: int| 0 <= i < pairs.len() implies pair_old_val(#[trigger] pairs[i])
                <= u32::MAX && pair_new_val(pairs[i]) <= u32::MAX by {
                lemma_valid_pair_fields(pairs[i]);
            }
        }
        if pair_old_val(p) == pair_new_val(p) {
            let m = m0;
            assert forall|i: int|
                0 <= i < pairs.len() && pair_old_val(#[trigger] pairs[i]) != pair_new_val(
                    pairs[i],
                ) implies m.contains_key(pair_old_val(pairs[i]) as u32) && m[pair_old_val(pairs[i])
                as u32] == pair_new_val(pairs[i]) as u32 by {
                assert(i < n);
                assert(prefix[i] == pairs[i]);
            }
        } else {
            let old_id = pair_old_val(p) as u32;
            let new_id = pair_new_val(p) as u32;
            if m0.contains_key(old_id) {
                let i = choose|i: int|
                    0 <= i < prefix.len() && pair_old_val(#[trigger] prefix[i]) as u32 == old_id
                        && pair_old_val(prefix[i]) != pair_new_val(prefix[i]);
                assert(pair_old_val(pairs[i]) == pair_old_val(pairs[n]));
                assert(false);
            }
            let m = m0.insert(old_id, new_id);
            assert forall|i: int|
                0 <= i < pairs.len() && pair_old_val(#[trigger] pairs[i]) != pair_new_val(
                    pairs[i],
                ) implies m.contains_key(pair_old_val(pairs[i]) as u32) && m[pair_old_val(pairs[i])
                as u32] == pair_new_val(pairs[i]) as u32 by {
                if i < n {
                    assert(prefix[i] == pairs[i]);
                    assert(pair_old_val(pairs[i]) != pair_old_val(p));
                }
            }
            assert forall|k: u32| #[trigger] m.contains_key(k) implies exists|i: int|
                0 <= i < pairs.len() && pair_old_val(#[trigger] pairs[i]) as u32 == k
                    && pair_old_val(pairs[i]) != pair_new_val(pairs[i]) by {
                if k == old_id {
                    assert(pair_old_val(pairs[n]) as u32 == k && pair_old_val(pairs[n])
                        != pair_new_val(pairs[n]));
                } else {
                    let i = choose|i: int|
                        0 <= i < prefix.len() && pair_old_val(#[trigger] prefix[i]) as u32 == k
                            && pair_old_val(prefix[i]) != pair_new_val(prefix[i]);
                    assert(pair_old_val(pairs[i]) as u32 == k && pair_old_val(pairs[i])
                        != pair_new_val(pairs[i]));
                }
            }
        }
    }
}

/// Law: the map built from a list of valid pair strings whose id values
/// never collide across two different pairs is fit for the rewrite laws: no
/// id maps to itself, no two old ids share a new id, and no new id is itself
/// an old id.
pub proof fn lemma_build_map_mapping_ok(pairs: Seq<Seq<char>>)
    requires
        forall|i: int| 0 <= i < pairs.len() ==> valid_pair_string(#[trigger] pairs[i]),
        forall|i: int, j: int|
            0 <= i < pairs.len() && 0 <= j < pairs.len() && i != j ==> {
                &&& pair_old_val(#[trigger] pairs[i]) != pair_old_val(#[trigger] pairs[j])
                &&& pair_old_val(pairs[i]) != pair_new_val(pairs[j])
                &&& pair_new_val(pairs[i]) != pair_new_val(pairs[j])
            },
    ensures
        map_from_pairs_spec(pairs) matches Ok(m) && crate::acl::mapping_ok(m),
{
    lemma_build_map_exact(pairs);
    let m = map_from_pairs_spec(pairs)->Ok_0;
    assert(forall|i: int| 0 <= i < pairs.len() ==> pair_old_val(#[trigger] pairs[i]) <= u32::MAX
        && pair_new_val(pairs[i]) <= u32::MAX) by {
        assert forall|i: int| 0 <= i < pairs.len() implies pair_old_val(#[trigger] pairs[i])
            <= u32::MAX && pair_new_val(pairs[i]) <= u32::MAX by {
            lemma_valid_pair_fields(pairs[i]);
        }
    }
    assert forall|k: u32| #[trigger] m.contains_key(k) implies !m.contains_key(m[k]) && m[k]
        != k by {
        let i = choose|i: int|
            0 <= i < pairs.len() && pair_old_val(#[trigger] pairs[i]) as u32 == k && pair_old_val(
                pairs[i],
            ) != pair_new_val(pairs[i]);
        assert(m[k] == pair_new_val(pairs[i]) as u32);
        if m.contains_key(m[k]) {
            let j = choose|j: int|
                0 <= j < pairs.len() && pair_old_val(#[trigger] pairs[j]) as u32 == m[k]
                    && pair_old_val(pairs[j]) != pair_new_val(pairs[j]);
            assert(pair_old_val(pairs[j]) == pair_new_val(pairs[i]));
            if i == j {
                assert(false);
            } else {
                assert(false);
            }
        }
    }
    assert forall|k1: u32, k2: u32|
        #![trigger m[k1], m[k2]]
        m.contains_key(k1) && m.contains_key(k2) && k1 != k2 implies m[k1] != m[k2] by {
        let i = choose|i: int|
            0 <= i < pairs.len() && pair_old_val(#[trigger] pairs[i]) as u32 == k1 && pair_old_val(
                pairs[i],
            ) != pair_new_val(pairs[i]);
        let j = choose|j: int|
            0 <= j < pairs.len() && pair_old_val(#[trigger] pairs[j]) as u32 == k2 && pair_old_val(
                pairs[j],
            ) != pair_new_val(pairs[j]);
        assert(m[k1] == pair_new_val(pairs[i]) as u32);
        assert(m[k2] == pair_new_val(pairs[j]) as u32);
        assert(i != j);
        assert(pair_new_val(pairs[i]) != pair_new_val(pairs[j]));
    }
}

/// The fields of `s` between its colons, as `str::split(':')` yields them:
/// a string without a colon is one field, and every colon opens a new
/// (possibly empty) field.
pub open spec fn split_colon(s: Seq<char>) -> Seq<Seq<char>>
    decreases s.len(),
{
    if s.len() == 0 {
        seq![Seq::<char>::empty()]
    } else {
        let rest = split_colon(s.drop_last());
        if s.last() == ':' {
            rest.push(Seq::<char>::empty())
        } else {
            rest.update(rest.len() - 1, rest.last().push(s.last()))
        }
    }
}

/// All colon-separated fields of all strings of `ps`, in order.
pub open spec fn flatten_splits(ps: Seq<Seq<char>>) -> Seq<Seq<char>>
    decreases ps.len(),
{
    if ps.len() == 0 {
        Seq::empty()
    } else {
        flatten_splits(ps.drop_last()) + split_colon(ps.last())
    }
}

/// The flattened id list of the uid pairs followed by the gid pairs.
pub open spec fn flatten_pairs_spec(uidpairs: Seq<Seq<char>>, gidpairs: Seq<Seq<char>>) -> Seq<
    Seq<char>,
> {
    flatten_splits(uidpairs + gidpairs)
}

/// Splits a string on `:` into its fields.
fn split_colon_exec(s: &str) -> (r: Vec<String>)
    ensures
        views_of(r@) == split_colon(s@),
{
    let n: usize = s.unicode_len();
    let mut out: Vec<String> = Vec::new();
    let mut start: usize = 0;
    let mut i: usize = 0;
    proof {
        assert(split_colon(s@.take(0)) =~~= views_of(out@).push(s@.subrange(0, 0)));
    }
    while i < n
        invariant
            start <= i <= n,
            n == s@.len(),
            split_colon(s@.take(i as int)) == views_of(out@).push(
                s@.subrange(start as int, i as int),
            ),
        decreases n - i,
    {
        let ghost cur = s@.subrange(start as int, i as int);
        proof {
            assert(s@.take(i + 1).drop_last() =~= s@.take(i as int));
        }
        if s.get_char(i) == ':' {
            let field = s.substring_char(start, i).to_owned();
            proof {
                assert(views_of(out@.push(field)) =~= views_of(out@).push(cur));
                assert(split_colon(s@.take(i + 1)) =~~= views_of(out@.push(field)).push(
                    s@.subrange(i + 1, i + 1),
                ));
            }
            out.push(field);
            start = i + 1;
        } else {
            proof {
                assert(views_of(out@).push(cur).last() == cur);
                assert(views_of(out@).push(cur).update(
                    views_of(out@).push(cur).len() - 1,
                    cur.push(s@[i as int]),
                ) =~= views_of(out@).push(cur.push(s@[i as int])));
                assert(s@.subrange(start as int, i + 1) =~= cur.push(s@[i as int]));
            }
        }
        i += 1;
    }
    proof {
        assert(s@.take(n as int) =~= s@);
    }
    let field = s.substring_char(start, n).to_owned();
    proof {
        assert(views_of(out@.push(field)) =~= views_of(out@).push(
            s@.subrange(start as int, n as int),
        ));
    }
    out.push(field);
    out
}

/// Returns the flattened uidpairs and gidpairs as a single list of all the
/// id fields they name, in order.
pub fn flatten_pairs(uidpairs: &Vec<String>, gidpairs: &Vec<String>) -> (r: Vec<String>)
    ensures
        views_of(r@) == flatten_pairs_spec(views_of(uidpairs@), views_of(gidpairs@)),
{
    let ghost all = views_of(uidpairs@) + views_of(gidpairs@);
    let mut out: Vec<String> = Vec::new();
    let mut i: usize = 0;
    while i < uidpairs.len()
        invariant
            i <= uidpairs.len(),
            all == views_of(uidpairs@) + views_of(gidpairs@),
            views_of(out@) == flatten_splits(all.take(i as int)),
        decreases uidpairs.len() - i,
    {
        proof {
            assert(all.take(i + 1).drop_last() =~= all.take(i as int));
            assert(all.take(i + 1).last() == uidpairs@[i as int]@);
        }
        let mut pieces = split_colon_exec(uidpairs[i].as_str());
        let ghost pv = views_of(pieces@);
        out.append(&mut pieces);
        proof {
            assert(views_of(out@) =~= flatten_splits(all.take(i as int)) + pv);
        }
        i += 1;
    }
    let ulen: usize = uidpairs.len();
    let mut j: usize = 0;
    while j < gidpairs.len()
        invariant
            j <= gidpairs.len(),
            ulen == uidpairs@.len(),
            all == views_of(uidpairs@) + views_of(gidpairs@),
            views_of(out@) == flatten_splits(all.take(ulen + j as int)),
        decreases gidpairs.len() - j,
    {
        proof {
            assert(all.take(ulen + j + 1).drop_last() =~= all.take(ulen + j as int));
            assert(all.take(ulen + j + 1).last() == gidpairs@[j as int]@);
        }
        let mut pieces = split_colon_exec(gidpairs[j].as_str());
        let ghost pv = views_of(pieces@);
        out.append(&mut pieces);
        proof {
            assert(views_of(out@) =~= flatten_splits(all.take(ulen + j as int)) + pv);
        }
        j += 1;
    }
    proof {
        assert(all.take(ulen + gidpairs@.len() as int) =~= all);
    }
    out
}

/// The repeated occurrences of `all`: every element equal to an earlier one,
/// in order, once per repeated occurrence.
pub open spec fn dupes_spec(all: Seq<Seq<char>>) -> Seq<Seq<char>>
    decreases all.len(),
{
    if all.len() == 0 {
        Seq::empty()
    } else {
        let prev = dupes_spec(all.drop_last());
        if all.drop_last().contains(all.last()) {
            prev.push(all.last())
        } else {
            prev
        }
    }
}

/// A list with two equal elements has a repeated occurrence, and a list with
/// a repeated occurrence has two equal elements.
pub proof fn lemma_dupes_iff(all: Seq<Seq<char>>)
    ensures
        dupes_spec(all).len() > 0 <==> exists|i: int, j: int|
            0 <= i < j < all.len() && all[i] == all[j],
    decreases all.len(),
{
    if all.len() > 0 {
        lemma_dupes_iff(all.drop_last());
        if dupes_spec(all).len() > 0 {
            if all.drop_last().contains(all.last()) {
                let i = choose|i: int| 0 <= i < all.len() - 1 && all.drop_last()[i] == all.last();
                assert(all[i] == all[all.len() - 1]);
            } else {
                let (i, j) = choose|i: int, j: int|
                    0 <= i < j < all.len() - 1 && all.drop_last()[i] == all.drop_last()[j];
                assert(all[i] == all[j]);
            }
        }
        if exists|i: int, j: int| 0 <= i < j < all.len() && all[i] == all[j] {
            let (i, j) = choose|i: int, j: int| 0 <= i < j < all.len() && all[i] == all[j];
            if j == all.len() - 1 {
                assert(all.drop_last()[i] == all.last());
                assert(all.drop_last().contains(all.last()));
            } else {
                assert(all.drop_last()[i] == all.drop_last()[j]);
            }
        }
    }
}

/// Whether `x` occurs among the first `upto` strings of `v`.
fn contains_string(v: &Vec<String>, upto: usize, x: &String) -> (r: bool)
    requires
        upto <= v@.len(),
    ensures
        r == views_of(v@).take(upto as int).contains(x@),
{
    let mut k: usize = 0;
    while k < upto
        invariant
            k <= upto <= v@.len(),
            forall|m: int| 0 <= m < k ==> views_of(v@)[m] != x@,
        decreases upto - k,
    {
        if v[k].eq(x) {
            assert(views_of(v@).take(upto as int)[k as int] == x@);
            return true;
        }
        k += 1;
    }
    false
}

/// Returns an error if and only if the flattened list of all ids named by
/// the uid and gid pairs (old and new columns alike) repeats a value. The
/// error lists every repeated occurrence, so a bad input set can be reported
/// in full before the run aborts.
pub fn check_pair_duplicates(uidpairs: &Vec<String>, gidpairs: &Vec<String>) -> (r: Result<
    (),
    PairError,
>)
    ensures
        ({
            let all = flatten_pairs_spec(views_of(uidpairs@), views_of(gidpairs@));
            match r {
                Ok(()) => forall|i: int, j: int| 0 <= i < j < all.len() ==> all[i] != all[j],
                Err(e) => {
                    &&& exists|i: int, j: int| 0 <= i < j < all.len() && all[i] == all[j]
                    &&& e matches PairError::DuplicateId { ids } && views_of(ids@) == dupes_spec(
                        all,
                    )
                },
            }
        }),
{
    let allids = flatten_pairs(uidpairs, gidpairs);
    let ghost all = views_of(allids@);
    let mut dupes: Vec<String> = Vec::new();
    let mut i: usize = 0;
    while i < allids.len()
        invariant
            i <= allids@.len(),
            all == views_of(allids@),
            views_of(dupes@) == dupes_spec(all.take(i as int)),
        decreases allids.len() - i,
    {
        proof {
            assert(all.take(i + 1).drop_last() =~= all.take(i as int));
            assert(all.take(i + 1).last() == all[i as int]);
        }
        let id = allids[i].clone();
        if contains_string(&allids, i, &id) {
            proof {
                assert(views_of(dupes@.push(id)) =~= views_of(dupes@).push(all[i as int]));
            }
            dupes.push(id);
        }
        i += 1;
    }
    proof {
        assert(all.take(allids@.len() as int) =~= all);
        lemma_dupes_iff(all);
    }
    if dupes.len() > 0 {
        Err(PairError::DuplicateId { ids: dupes })
    } else {
        Ok(())
    }
}

/// Returns an error if the pair lists do not pass the pre-flight checks.
pub fn check_pairs(uidpairs: &Vec<String>, gidpairs: &Vec<String>) -> (r: Result<(), PairError>)
    ensures
        ({
            let all = flatten_pairs_spec(views_of(uidpairs@), views_of(gidpairs@));
            match r {
                Ok(()) => forall|i: int, j: int| 0 <= i < j < all.len() ==> all[i] != all[j],
                Err(e) => {
                    &&& exists|i: int, j: int| 0 <= i < j < all.len() && all[i] == all[j]
                    &&& e matches PairError::DuplicateId { ids } && views_of(ids@) == dupes_spec(
                        all,
                    )
                },
            }
        }),
{
    check_pair_duplicates(uidpairs, gidpairs)?;
    Ok(())
}

} // verus!
