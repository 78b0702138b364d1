//! The mathematical model of the helper: what parsing configuration text and
//! device-listing text yields, how an identifier resolves to a device name,
//! and which mount attempts a run performs. The executable engine is proved
//! against these functions.

use vstd::prelude::*;

use crate::text::{contains_seq, split_on, trim_seq};

verus! {

/// The recognized true literals; every other literal reads as false.
pub open spec fn parse_bool_lit(v: Seq<char>) -> bool {
    v == "1"@ || v == "true"@ || v == "True"@
}

/// The effect of one configuration line on the accumulated force policy and
/// request list: a blank or malformed line changes nothing, a `force` line
/// rewrites the policy, and any other two-token line appends a request of
/// (identifier, target path).
pub open spec fn config_line(
    f: bool,
    r: Seq<(Seq<char>, Seq<char>)>,
    line: Seq<char>,
) -> (bool, Seq<(Seq<char>, Seq<char>)>) {
    if line.len() == 0 {
        (f, r)
    } else {
        let w = split_on(trim_seq(line), ' ');
        if w.len() != 2 {
            (f, r)
        } else if w[0] == "force"@ {
            (parse_bool_lit(w[1]), r)
        } else {
            (f, r.push((w[0], w[1])))
        }
    }
}

pub open spec fn config_fold(
    lines: Seq<Seq<char>>,
    f: bool,
    r: Seq<(Seq<char>, Seq<char>)>,
) -> (bool, Seq<(Seq<char>, Seq<char>)>)
    decreases lines.len(),
{
    if lines.len() == 0 {
        (f, r)
    } else {
        let s = config_line(f, r, lines[0]);
        config_fold(lines.skip(1), s.0, s.1)
    }
}

/// What parsing configuration text yields: the final force policy, starting
/// from the caller's default with the last `force` line winning, and the
/// mount requests in order of appearance.
pub open spec fn parse_config(text: Seq<char>, default_force: bool) -> (
    bool,
    Seq<(Seq<char>, Seq<char>)>,
) {
    config_fold(split_on(text, '\n'), default_force, Seq::empty())
}

/// The effect of one inventory line on the accumulated records: a blank line
/// or one with fewer than two tokens is dropped, as is a header line, i.e.
/// one whose first token has `NAME` anywhere in it; any other line yields the
/// record (first token, last token) of device name and identifier.
pub open spec fn inventory_line(
    r: Seq<(Seq<char>, Seq<char>)>,
    line: Seq<char>,
) -> Seq<(Seq<char>, Seq<char>)> {
    if line.len() == 0 {
        r
    } else {
        let w = split_on(trim_seq(line), ' ');
        if w.len() < 2 {
            r
        } else if contains_seq(w[0], "NAME"@) {
            r
        } else {
            r.push((w[0], w[w.len() - 1]))
        }
    }
}

pub open spec fn inventory_fold(
    lines: Seq<Seq<char>>,
    r: Seq<(Seq<char>, Seq<char>)>,
) -> Seq<(Seq<char>, Seq<char>)>
    decreases lines.len(),
{
    if lines.len() == 0 {
        r
    } else {
        inventory_fold(lines.skip(1), inventory_line(r, lines[0]))
    }
}

/// What parsing device-listing text yields: one (device name, identifier)
/// record per surviving line, in order.
pub open spec fn parse_inventory(text: Seq<char>) -> Seq<(Seq<char>, Seq<char>)> {
    inventory_fold(split_on(text, '\n'), Seq::empty())
}

/// The device name of the first inventory record whose identifier equals the
/// requested one, if any.
pub open spec fn resolve_spec(blocks: Seq<(Seq<char>, Seq<char>)>, uuid: Seq<char>) -> Option<
    Seq<char>,
>
    decreases blocks.len(),
{
    if blocks.len() == 0 {
        None
    } else if blocks[0].1 == uuid {
        Some(blocks[0].0)
    } else {
        resolve_spec(blocks.skip(1), uuid)
    }
}

/// The (device name, target path) pairs a run of mount attempts hands to the
/// mount command, given the outcome of each attempt in turn: a request whose
/// identifier does not resolve is skipped silently; after a failed attempt
/// the run goes on under a true force policy and ends at once under a false
/// one.
pub open spec fn mounts_attempted(
    blocks: Seq<(Seq<char>, Seq<char>)>,
    reqs: Seq<(Seq<char>, Seq<char>)>,
    force: bool,
    outcomes: Seq<bool>,
) -> Seq<(Seq<char>, Seq<char>)>
    decreases reqs.len(),
{
    if reqs.len() == 0 {
        Seq::empty()
    } else {
        match resolve_spec(blocks, reqs[0].0) {
            None => mounts_attempted(blocks, reqs.skip(1), force, outcomes),
            Some(name) => {
                if outcomes[0] || force {
                    seq![(name, reqs[0].1)] + mounts_attempted(
                        blocks,
                        reqs.skip(1),
                        force,
                        outcomes.skip(1),
                    )
                } else {
                    seq![(name, reqs[0].1)]
                }
            },
        }
    }
}

pub(crate) proof fn lemma_config_fold_snoc(
    l: Seq<Seq<char>>,
    x: Seq<char>,
    f: bool,
    r: Seq<(Seq<char>, Seq<char>)>,
)
    ensures
        config_fold(l.push(x), f, r) == config_line(
            config_fold(l, f, r).0,
            config_fold(l, f, r).1,
            x,
        ),
    decreases l.len(),
{
    if l.len() == 0 {
        assert(l.push(x)[0] == x);
        assert(l.push(x).skip(1) =~~= Seq::<Seq<char>>::empty());
        let s = config_line(f, r, x);
        assert(config_fold(Seq::<Seq<char>>::empty(), s.0, s.1) == (s.0, s.1));
        assert(config_fold(l.push(x), f, r) == (s.0, s.1));
        assert(config_fold(l, f, r) == (f, r));
    } else {
        assert(l.push(x)[0] == l[0]);
        assert(l.push(x).skip(1) =~~= l.skip(1).push(x));
        let s = config_line(f, r, l[0]);
        lemma_config_fold_snoc(l.skip(1), x, s.0, s.1);
        assert(config_fold(l.push(x), f, r) == config_fold(l.skip(1).push(x), s.0, s.1));
        assert(config_fold(l, f, r) == config_fold(l.skip(1), s.0, s.1));
    }
}

pub(crate) proof fn lemma_inventory_fold_snoc(
    l: Seq<Seq<char>>,
    x: Seq<char>,
    r: Seq<(Seq<char>, Seq<char>)>,
)
    ensures
        inventory_fold(l.push(x), r) == inventory_line(inventory_fold(l, r), x),
    decreases l.len(),
{
    if l.len() == 0 {
        assert(l.push(x)[0] == x);
        assert(l.push(x).skip(1) =~~= Seq::<Seq<char>>::empty());
        assert(inventory_fold(Seq::<Seq<char>>::empty(), inventory_line(r, x)) == inventory_line(
            r,
            x,
        ));
        assert(inventory_fold(l, r) == r);
    } else {
        assert(l.push(x)[0] == l[0]);
        assert(l.push(x).skip(1) =~~= l.skip(1).push(x));
        lemma_inventory_fold_snoc(l.skip(1), x, inventory_line(r, l[0]));
        assert(inventory_fold(l.push(x), r) == inventory_fold(
            l.skip(1).push(x),
            inventory_line(r, l[0]),
        ));
        assert(inventory_fold(l, r) == inventory_fold(l.skip(1), inventory_line(r, l[0])));
    }
}

proof fn lemma_config_fold_force_independent(
    lines: Seq<Seq<char>>,
    f1: bool,
    f2: bool,
    r: Seq<(Seq<char>, Seq<char>)>,
)
    ensures
        config_fold(lines, f1, r).1 == config_fold(lines, f2, r).1,
    decreases lines.len(),
{
    if lines.len() == 0 {
    } else {
        let s1 = config_line(f1, r, lines[0]);
        let s2 = config_line(f2, r, lines[0]);
        assert(s1.1 == s2.1);
        lemma_config_fold_force_independent(lines.skip(1), s1.0, s2.0, s1.1);
    }
}

/// Law: the requests parsed from configuration text depend on the text
/// alone, never on the caller's default force policy; parsing accumulates
/// nothing across calls, since the fold always starts from an empty request
/// list.
pub proof fn lemma_parse_config_requests_default_free(text: Seq<char>, d1: bool, d2: bool)
    ensures
        parse_config(text, d1).1 == parse_config(text, d2).1,
{
    lemma_config_fold_force_independent(split_on(text, '\n'), d1, d2, Seq::empty());
}

/// Law: an inventory line whose first token has `NAME` anywhere in it is
/// dropped, whatever the rest of the line holds.
pub proof fn lemma_inventory_header_dropped(r: Seq<(Seq<char>, Seq<char>)>, line: Seq<char>)
    requires
        contains_seq(split_on(trim_seq(line), ' ')[0], "NAME"@),
    ensures
        inventory_line(r, line) == r,
{
}

/// Law: resolution is first-match — if the record at `i` matches the
/// requested identifier and no earlier record does, resolution returns that
/// record's device name, so ties go to the earliest-listed device.
pub proof fn lemma_resolve_first_match(
    blocks: Seq<(Seq<char>, Seq<char>)>,
    uuid: Seq<char>,
    i: int,
)
    requires
        0 <= i < blocks.len(),
        blocks[i].1 == uuid,
        forall|k: int| 0 <= k < i ==> blocks[k].1 != uuid,
    ensures
        resolve_spec(blocks, uuid) == Some(blocks[i].0),
    decreases i,
{
    if i == 0 {
    } else {
        let t = blocks.skip(1);
        assert forall|k: int| 0 <= k < i - 1 implies t[k].1 != uuid by {
            assert(t[k] == blocks[k + 1]);
        }
        assert(t[i - 1] == blocks[i]);
        lemma_resolve_first_match(t, uuid, i - 1);
    }
}

proof fn lemma_attempts_len_bounded(
    blocks: Seq<(Seq<char>, Seq<char>)>,
    reqs: Seq<(Seq<char>, Seq<char>)>,
    force: bool,
    outcomes: Seq<bool>,
)
    ensures
        mounts_attempted(blocks, reqs, force, outcomes).len() <= reqs.len(),
    decreases reqs.len(),
{
    if reqs.len() == 0 {
    } else {
        if resolve_spec(blocks, reqs[0].0) is None {
            lemma_attempts_len_bounded(blocks, reqs.skip(1), force, outcomes);
        } else if outcomes[0] || force {
            lemma_attempts_len_bounded(blocks, reqs.skip(1), force, outcomes.skip(1));
        }
    }
}

/// Law: under a false force policy a failed attempt ends the run at once,
/// so every attempt of a run except possibly the last one succeeded.
pub proof fn lemma_failure_ends_run(
    blocks: Seq<(Seq<char>, Seq<char>)>,
    reqs: Seq<(Seq<char>, Seq<char>)>,
    outcomes: Seq<bool>,
)
    requires
        outcomes.len() >= reqs.len(),
    ensures
        forall|k: int|
            0 <= k < mounts_attempted(blocks, reqs, false, outcomes).len() - 1 ==> outcomes[k],
    decreases reqs.len(),
{
    if reqs.len() == 0 {
    } else {
        let a = mounts_attempted(blocks, reqs, false, outcomes);
        if resolve_spec(blocks, reqs[0].0) is None {
            lemma_failure_ends_run(blocks, reqs.skip(1), outcomes);
        } else {
            if outcomes[0] {
                lemma_failure_ends_run(blocks, reqs.skip(1), outcomes.skip(1));
                lemma_attempts_len_bounded(blocks, reqs.skip(1), false, outcomes.skip(1));
                let t = mounts_attempted(blocks, reqs.skip(1), false, outcomes.skip(1));
                assert forall|k: int| 0 <= k < a.len() - 1 implies outcomes[k] by {
                    if k > 0 {
                        assert(t.len() == a.len() - 1);
                        assert(0 <= k - 1 < t.len() - 1);
                        assert(k - 1 < outcomes.skip(1).len());
                        assert(outcomes.skip(1)[k - 1] == outcomes[k]);
                    }
                }
            } else {
                assert(a.len() == 1);
            }
        }
    }
}

/// Law: resolution returns nothing exactly when no record matches.
pub proof fn lemma_resolve_none(blocks: Seq<(Seq<char>, Seq<char>)>, uuid: Seq<char>)
    requires
        forall|k: int| 0 <= k < blocks.len() ==> blocks[k].1 != uuid,
    ensures
        resolve_spec(blocks, uuid) is None,
    decreases blocks.len(),
{
    if blocks.len() == 0 {
    } else {
        let t = blocks.skip(1);
        assert forall|k: int| 0 <= k < t.len() implies t[k].1 != uuid by {
            assert(t[k] == blocks[k + 1]);
        }
        lemma_resolve_none(t, uuid);
    }
}

} // verus!
