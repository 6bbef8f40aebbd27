//! Name-based resolution with human-assisted disambiguation.
//!
//! A name is matched against every node of the flattened forest. Zero
//! matches report `NotFound`; one match resolves at once; several
//! matches hand the candidate list, in flattened order, to the caller,
//! who must supply one zero-based index below the candidate count.

use vstd::prelude::*;

use crate::EngineError;
use crate::list::TodoList;
use crate::task::{Task, TaskV, flat_from, views_of};

verus! {

/// How a name resolved: no node, exactly one node, or a candidate list
/// in flattened order awaiting disambiguation.
#[derive(Debug)]
pub enum Resolution {
    NotFound,
    One(u128),
    Many(Vec<u128>),
}

/// Byte-for-byte equality of two text fields.
pub fn bytes_eq(a: &Vec<u8>, b: &Vec<u8>) -> (r: bool)
    ensures
        r == (a@ == b@),
{
    if a.len() != b.len() {
        proof {
            assert(a@ != b@);
        }
        return false;
    }
    let mut k: usize = 0;
    while k < a.len()
        invariant
            k <= a.len(),
            a@.len() == b@.len(),
            forall|i: int| 0 <= i < k ==> a@[i] == b@[i],
        decreases a.len() - k,
    {
        if a[k] != b[k] {
            return false;
        }
        k += 1;
    }
    proof {
        assert(a@ =~= b@);
    }
    true
}

/// The elements of `s` from index `i` on whose name equals `name`, in
/// order.
pub open spec fn matches_from(s: Seq<TaskV>, i: int, name: Seq<u8>) -> Seq<TaskV>
    decreases s.len() - i,
{
    if 0 <= i < s.len() {
        if s[i].name == name {
            seq![s[i]] + matches_from(s, i + 1, name)
        } else {
            matches_from(s, i + 1, name)
        }
    } else {
        Seq::empty()
    }
}

/// The identities of the elements of `s` from index `i` on whose name
/// equals `name`, in order.
pub open spec fn match_uuids_from(s: Seq<TaskV>, i: int, name: Seq<u8>) -> Seq<u128>
    decreases s.len() - i,
{
    if 0 <= i < s.len() {
        if s[i].name == name {
            seq![s[i].uuid] + match_uuids_from(s, i + 1, name)
        } else {
            match_uuids_from(s, i + 1, name)
        }
    } else {
        Seq::empty()
    }
}

/// The nodes of the flattened forest whose name equals `name`, in
/// flattened order.
pub open spec fn name_matches(forest: Seq<TaskV>, name: Seq<u8>) -> Seq<TaskV> {
    matches_from(flat_from(forest, 0), 0, name)
}

/// The identity list runs in step with the match list.
pub proof fn lemma_match_uuids(s: Seq<TaskV>, i: int, name: Seq<u8>)
    ensures
        match_uuids_from(s, i, name) == matches_from(s, i, name).map_values(|t: TaskV| t.uuid),
    decreases s.len() - i,
{
    if 0 <= i < s.len() {
        lemma_match_uuids(s, i + 1, name);
        if s[i].name == name {
            assert(match_uuids_from(s, i, name) =~= matches_from(s, i, name).map_values(
                |t: TaskV| t.uuid,
            ));
        }
    } else {
        assert(match_uuids_from(s, i, name) =~= matches_from(s, i, name).map_values(
            |t: TaskV| t.uuid,
        ));
    }
}

impl TodoList {
    /// Resolves a name against the forest: `NotFound` for zero matches,
    /// the node's identity for one match, and the full candidate list in
    /// flattened order for several.
    #[verifier::loop_isolation(false)]
    pub fn resolve_by_name(&self, name: &Vec<u8>) -> (r: Resolution)
        ensures
            (match r {
                Resolution::NotFound => name_matches(self@.tasks, name@).len() == 0,
                Resolution::One(u) => name_matches(self@.tasks, name@).len() == 1 && u
                    == name_matches(self@.tasks, name@)[0].uuid,
                Resolution::Many(v) => name_matches(self@.tasks, name@).len() > 1 && v@
                    == name_matches(self@.tasks, name@).map_values(|t: TaskV| t.uuid),
            }),
    {
        let fl = self.flattened();
        let ghost vs: Seq<TaskV> = views_of(fl@);
        let mut us: Vec<u128> = Vec::new();
        let mut k: usize = 0;
        while k < fl.len()
            invariant
                k <= fl.len(),
                us@ + match_uuids_from(vs, k as int, name@) == match_uuids_from(vs, 0, name@),
            decreases fl.len() - k,
        {
            let t: &Task = fl[k];
            proof {
                assert(vs[k as int] == t.deep());
            }
            if bytes_eq(&t.name, name) {
                us.push(t.uuid);
            }
            proof {
                assert(us@ + match_uuids_from(vs, k + 1, name@) =~= match_uuids_from(
                    vs,
                    0,
                    name@,
                ));
            }
            k += 1;
        }
        proof {
            assert(match_uuids_from(vs, fl@.len() as int, name@) =~= Seq::<u128>::empty());
            assert(us@ =~= match_uuids_from(vs, 0, name@));
            lemma_match_uuids(vs, 0, name@);
            assert(us@.len() == name_matches(self@.tasks, name@).len());
        }
        if us.len() == 0 {
            Resolution::NotFound
        } else if us.len() == 1 {
            let u = us[0];
            proof {
                assert(u == name_matches(self@.tasks, name@).map_values(|t: TaskV| t.uuid)[0]);
            }
            Resolution::One(u)
        } else {
            Resolution::Many(us)
        }
    }
}

/// Picks the candidate at a zero-based index; an index at or past the
/// candidate count is a fatal input error.
pub fn select_candidate(candidates: &Vec<u128>, index: usize) -> (r: Result<u128, EngineError>)
    ensures
        index < candidates@.len() ==> r == Ok::<u128, EngineError>(candidates@[index as int]),
        index >= candidates@.len() ==> r == Err::<u128, EngineError>(EngineError::InvalidInput),
{
    if index < candidates.len() {
        Ok(candidates[index])
    } else {
        Err(EngineError::InvalidInput)
    }
}

/// Whether every byte is an ASCII decimal digit.
pub open spec fn is_digits(s: Seq<u8>) -> bool {
    forall|i: int| 0 <= i < s.len() ==> 48 <= #[trigger] s[i] <= 57
}

/// The number the digit string denotes.
pub open spec fn dec_value(s: Seq<u8>) -> int
    decreases s.len(),
{
    if s.len() == 0 {
        0
    } else {
        dec_value(s.drop_last()) * 10 + (s.last() - 48)
    }
}

pub proof fn lemma_dec_value_bounds(s: Seq<u8>)
    requires
        is_digits(s),
    ensures
        0 <= dec_value(s),
        s.len() > 0 ==> dec_value(s.drop_last()) <= dec_value(s),
    decreases s.len(),
{
    if s.len() > 0 {
        assert(is_digits(s.drop_last())) by {
            assert(forall|i: int|
                0 <= i < s.len() - 1 ==> s.drop_last()[i] == #[trigger] s[i]);
        }
        lemma_dec_value_bounds(s.drop_last());
        assert(48 <= s[s.len() - 1] <= 57);
    }
}

pub proof fn lemma_dec_value_prefix(s: Seq<u8>, k: int)
    requires
        is_digits(s),
        0 <= k <= s.len(),
    ensures
        dec_value(s.take(k)) <= dec_value(s),
    decreases s.len() - k,
{
    if k < s.len() {
        lemma_dec_value_prefix(s, k + 1);
        assert(is_digits(s.take(k + 1))) by {
            assert(forall|i: int| 0 <= i < k + 1 ==> s.take(k + 1)[i] == #[trigger] s[i]);
        }
        lemma_dec_value_bounds(s.take(k + 1));
        assert(s.take(k + 1).drop_last() =~= s.take(k));
    } else {
        assert(s.take(k) =~= s);
    }
}

/// Parses a zero-based disambiguation index from decimal digits; any
/// other text, an empty input, or a value past `usize` is a fatal input
/// error.
#[verifier::loop_isolation(false)]
pub fn parse_index(input: &Vec<u8>) -> (r: Result<usize, EngineError>)
    ensures
        match r {
            Ok(v) => input@.len() > 0 && is_digits(input@) && v == dec_value(input@),
            Err(e) => e == EngineError::InvalidInput && (input@.len() == 0 || !is_digits(input@)
                || dec_value(input@) > usize::MAX),
        },
{
    if input.len() == 0 {
        return Err(EngineError::InvalidInput);
    }
    let mut v: usize = 0;
    let mut k: usize = 0;
    while k < input.len()
        invariant
            k <= input.len(),
            is_digits(input@.take(k as int)),
            v == dec_value(input@.take(k as int)),
        decreases input.len() - k,
    {
        let b = input[k];
        if b < 48 || b > 57 {
            proof {
                assert(!is_digits(input@));
            }
            return Err(EngineError::InvalidInput);
        }
        let d: usize = (b - 48) as usize;
        proof {
            assert(is_digits(input@.take(k + 1))) by {
                assert(forall|i: int|
                    0 <= i < k + 1 ==> input@.take(k + 1)[i] == #[trigger] input@[i]);
            }
            assert(input@.take(k + 1).drop_last() =~= input@.take(k as int));
            assert(input@.take(k + 1).last() == input@[k as int]);
            assert(dec_value(input@.take(k + 1)) == v * 10 + d);
        }
        if v > (usize::MAX - d) / 10 {
            proof {
                assert(v * 10 + d > usize::MAX);
                if is_digits(input@) {
                    lemma_dec_value_prefix(input@, k + 1);
                }
            }
            return Err(EngineError::InvalidInput);
        }
        proof {
            assert(v * 10 + d <= usize::MAX);
        }
        v = v * 10 + d;
        k += 1;
    }
    proof {
        assert(input@.take(input@.len() as int) =~= input@);
    }
    Ok(v)
}

} // verus!
