//! The mount engine: the state built from configuration and inventory text,
//! identifier resolution, and the decisions a run of mount attempts makes
//! under the boot-safe force policy.

use vstd::prelude::*;

use crate::model::{
    config_fold, config_line, inventory_fold, inventory_line, lemma_config_fold_snoc,
    lemma_inventory_fold_snoc, lemma_resolve_first_match, lemma_resolve_none, mounts_attempted,
    parse_bool_lit, parse_config, parse_inventory, resolve_spec,
};
use crate::text::{contains_str, split_on, split_str, str_views, trim_seq, trim_str};

verus! {

/// The kind of boot-time failure that led to a forced-recovery state.
pub enum ErrType {
    IOError,
    LsblkErr,
    ReadLsblkErr,
    MountErr,
}

struct BlockInfo {
    name: String,
    uuid: String,
}

struct MountBlockInfo {
    uuid: String,
    path: String,
}

/// The engine state: the force policy, the block-device inventory as
/// (device name, identifier) records, and the mount requests as
/// (identifier, target path) pairs, in configuration order.
pub struct DiskInfo {
    force: bool,
    blocks: Vec<BlockInfo>,
    mount_list: Vec<MountBlockInfo>,
}

/// The abstract value of an engine state.
#[verifier::ext_equal]
pub struct DiskInfoView {
    pub force: bool,
    pub blocks: Seq<(Seq<char>, Seq<char>)>,
    pub requests: Seq<(Seq<char>, Seq<char>)>,
}

spec fn block_views(bs: Seq<BlockInfo>) -> Seq<(Seq<char>, Seq<char>)> {
    bs.map_values(|b: BlockInfo| (b.name@, b.uuid@))
}

spec fn req_views(ms: Seq<MountBlockInfo>) -> Seq<(Seq<char>, Seq<char>)> {
    ms.map_values(|m: MountBlockInfo| (m.uuid@, m.path@))
}

/// The views of a sequence of string pairs.
pub open spec fn pair_views(ps: Seq<(String, String)>) -> Seq<(Seq<char>, Seq<char>)> {
    ps.map_values(|p: (String, String)| (p.0@, p.1@))
}

impl View for DiskInfo {
    type V = DiskInfoView;

    closed spec fn view(&self) -> DiskInfoView {
        DiskInfoView {
            force: self.force,
            blocks: block_views(self.blocks@),
            requests: req_views(self.mount_list@),
        }
    }
}

impl DiskInfo {
    /// An engine state with the given force policy and nothing loaded yet.
    pub fn fresh(force: bool) -> (r: DiskInfo)
        ensures
            r@.force == force,
            r@.blocks == Seq::<(Seq<char>, Seq<char>)>::empty(),
            r@.requests == Seq::<(Seq<char>, Seq<char>)>::empty(),
    {
        let r = DiskInfo { force: force, blocks: Vec::new(), mount_list: Vec::new() };
        proof {
            assert(r@.blocks =~~= Seq::<(Seq<char>, Seq<char>)>::empty());
            assert(r@.requests =~~= Seq::<(Seq<char>, Seq<char>)>::empty());
        }
        r
    }

    /// The forced-recovery state: whatever failure kind is at hand, the
    /// engine degrades to an empty state under a true force policy, so that
    /// boot can proceed.
    pub fn force(e: ErrType) -> (r: DiskInfo)
        ensures
            r@.force,
            r@.blocks.len() == 0,
            r@.requests.len() == 0,
    {
        let _kind = e;
        DiskInfo::fresh(true)
    }

    /// The force/no-engine branch taken after a startup failure: under a
    /// true force policy the result is the empty forced state, under a false
    /// one there is no engine and mounting is skipped for this boot.
    pub fn on_startup_error(&self, e: ErrType) -> (r: Option<DiskInfo>)
        ensures
            (match r {
                Some(d) => self@.force && d@.force && d@.blocks.len() == 0 && d@.requests.len()
                    == 0,
                None => !self@.force,
            }),
    {
        if self.force {
            Some(DiskInfo::force(e))
        } else {
            None
        }
    }

    /// Parses configuration text: the force policy becomes what the text's
    /// last `force` line says, defaulting to the policy already held, and
    /// the mount requests are replaced by those of the text, in order. The
    /// inventory is untouched. Malformed lines are dropped; no input fails.
    pub fn read_cfg(&mut self, value: String)
        ensures
            final(self)@.force == parse_config(value@, old(self)@.force).0,
            final(self)@.requests == parse_config(value@, old(self)@.force).1,
            final(self)@.blocks == old(self)@.blocks,
    {
        let ghost d = old(self)@.force;
        let lines = split_str(value.as_str(), '\n');
        let mut new_force = self.force;
        let mut res: Vec<MountBlockInfo> = Vec::new();
        let mut i: usize = 0;
        proof {
            assert(str_views(lines@).take(0) =~~= Seq::<Seq<char>>::empty());
            assert(config_fold(Seq::<Seq<char>>::empty(), d, Seq::empty()) == (
                d,
                Seq::<(Seq<char>, Seq<char>)>::empty(),
            ));
            assert(req_views(res@) =~~= Seq::<(Seq<char>, Seq<char>)>::empty());
        }
        while i < lines.len()
            invariant
                i <= lines.len(),
                str_views(lines@) == split_on(value@, '\n'),
                config_fold(str_views(lines@).take(i as int), d, Seq::empty()).0 == new_force,
                config_fold(str_views(lines@).take(i as int), d, Seq::empty()).1 == req_views(
                    res@,
                ),
            decreases lines@.len() - i,
        {
            let ghost lv = str_views(lines@)[i as int];
            let ghost pf = config_fold(str_views(lines@).take(i as int), d, Seq::empty()).0;
            let ghost pr = config_fold(str_views(lines@).take(i as int), d, Seq::empty()).1;
            proof {
                assert(lv == lines@[i as int]@);
                assert(str_views(lines@).take(i + 1) =~~= str_views(lines@).take(i as int).push(
                    lv,
                ));
                lemma_config_fold_snoc(str_views(lines@).take(i as int), lv, d, Seq::empty());
            }
            let line = &lines[i];
            if !line.as_str().is_empty() {
                let trimmed = trim_str(line.as_str());
                let words = split_str(trimmed.as_str(), ' ');
                let ghost w = split_on(trim_seq(lv), ' ');
                proof {
                    assert(str_views(words@) == w);
                    assert(w.len() == words@.len());
                }
                if words.len() == 2 {
                    proof {
                        assert(w[0] == words@[0]@);
                        assert(w[1] == words@[1]@);
                    }
                    let fkey = String::from_str("force");
                    if words[0] == fkey {
                        let v1 = String::from_str("1");
                        let v2 = String::from_str("true");
                        let v3 = String::from_str("True");
                        let is_true = words[1] == v1 || words[1] == v2 || words[1] == v3;
                        new_force = is_true;
                        proof {
                            assert(new_force == parse_bool_lit(w[1]));
                            assert(config_line(pf, pr, lv) == (new_force, pr));
                        }
                    } else {
                        res.push(
                            MountBlockInfo { uuid: words[0].clone(), path: words[1].clone() },
                        );
                        proof {
                            assert(req_views(res@) =~~= pr.push((w[0], w[1])));
                            assert(config_line(pf, pr, lv) == (pf, pr.push((w[0], w[1]))));
                        }
                    }
                } else {
                    proof {
                        assert(config_line(pf, pr, lv) == (pf, pr));
                    }
                }
            } else {
                proof {
                    assert(lv.len() == 0);
                    assert(config_line(pf, pr, lv) == (pf, pr));
                }
            }
            proof {
                assert(config_fold(str_views(lines@).take(i + 1), d, Seq::empty()).0 == new_force);
                assert(config_fold(str_views(lines@).take(i + 1), d, Seq::empty()).1 == req_views(
                    res@,
                ));
            }
            i = i + 1;
        }
        proof {
            assert(str_views(lines@).take(lines@.len() as int) =~~= str_views(lines@));
        }
        self.force = new_force;
        self.mount_list = res;
    }

    /// Parses device-listing text: the inventory is replaced by one
    /// (device name, identifier) record per surviving line, in order. The
    /// force policy and the requests are untouched. Malformed lines and
    /// header lines are dropped; no input fails.
    pub fn read_lsblk(&mut self, value: String)
        ensures
            final(self)@.blocks == parse_inventory(value@),
            final(self)@.force == old(self)@.force,
            final(self)@.requests == old(self)@.requests,
    {
        let lines = split_str(value.as_str(), '\n');
        let mut res: Vec<BlockInfo> = Vec::new();
        let mut i: usize = 0;
        proof {
            assert(str_views(lines@).take(0) =~~= Seq::<Seq<char>>::empty());
            assert(inventory_fold(Seq::<Seq<char>>::empty(), Seq::empty())
                == Seq::<(Seq<char>, Seq<char>)>::empty());
            assert(block_views(res@) =~~= Seq::<(Seq<char>, Seq<char>)>::empty());
        }
        while i < lines.len()
            invariant
                i <= lines.len(),
                str_views(lines@) == split_on(value@, '\n'),
                inventory_fold(str_views(lines@).take(i as int), Seq::empty()) == block_views(
                    res@,
                ),
            decreases lines@.len() - i,
        {
            let ghost lv = str_views(lines@)[i as int];
            let ghost pr = inventory_fold(str_views(lines@).take(i as int), Seq::empty());
            proof {
                assert(lv == lines@[i as int]@);
                assert(str_views(lines@).take(i + 1) =~~= str_views(lines@).take(i as int).push(
                    lv,
                ));
                lemma_inventory_fold_snoc(str_views(lines@).take(i as int), lv, Seq::empty());
            }
            let line = &lines[i];
            if !line.as_str().is_empty() {
                let trimmed = trim_str(line.as_str());
                let words = split_str(trimmed.as_str(), ' ');
                let ghost w = split_on(trim_seq(lv), ' ');
                proof {
                    assert(str_views(words@) == w);
                    assert(w.len() == words@.len());
                }
                if words.len() >= 2 {
                    proof {
                        assert(w[0] == words@[0]@);
                        assert(w[w.len() - 1] == words@[words@.len() - 1]@);
                    }
                    let has_header = contains_str(words[0].as_str(), "NAME");
                    if !has_header {
                        let name = words[0].clone();
                        let uuid = words[words.len() - 1].clone();
                        res.push(BlockInfo { name: name, uuid: uuid });
                        proof {
                            assert(block_views(res@) =~~= pr.push((w[0], w[w.len() - 1])));
                            assert(inventory_line(pr, lv) == pr.push((w[0], w[w.len() - 1])));
                        }
                    } else {
                        proof {
                            assert(inventory_line(pr, lv) == pr);
                        }
                    }
                } else {
                    proof {
                        assert(inventory_line(pr, lv) == pr);
                    }
                }
            } else {
                proof {
                    assert(lv.len() == 0);
                    assert(inventory_line(pr, lv) == pr);
                }
            }
            proof {
                assert(inventory_fold(str_views(lines@).take(i + 1), Seq::empty()) == block_views(
                    res@,
                ));
            }
            i = i + 1;
        }
        proof {
            assert(str_views(lines@).take(lines@.len() as int) =~~= str_views(lines@));
        }
        self.blocks = res;
    }

    /// Resolves an identifier to the device name of the first matching
    /// inventory record, scanning in order; returns nothing when no record
    /// matches.
    pub fn find_name(&self, uuid: &String) -> (r: Option<String>)
        ensures
            (match r {
                Some(name) => resolve_spec(self@.blocks, uuid@) == Some(name@),
                None => resolve_spec(self@.blocks, uuid@) is None,
            }),
    {
        let mut i: usize = 0;
        while i < self.blocks.len()
            invariant
                i <= self.blocks.len(),
                forall|k: int| 0 <= k < i ==> self@.blocks[k].1 != uuid@,
            decreases self.blocks@.len() - i,
        {
            proof {
                assert(self@.blocks[i as int] == (
                    self.blocks@[i as int].name@,
                    self.blocks@[i as int].uuid@,
                ));
            }
            if self.blocks[i].uuid == *uuid {
                proof {
                    lemma_resolve_first_match(self@.blocks, uuid@, i as int);
                }
                return Some(self.blocks[i].name.clone());
            }
            i = i + 1;
        }
        proof {
            lemma_resolve_none(self@.blocks, uuid@);
        }
        None
    }

    /// Performs a whole run of mount decisions, with the outcome of each
    /// attempt supplied in turn, and returns the (device name, target path)
    /// pairs that were handed to the mount command: unresolved identifiers
    /// are skipped, a failure under a true force policy is passed over, and
    /// a failure under a false force policy ends the run at once.
    pub fn run_mounts_with(&self, outcomes: &Vec<bool>) -> (r: Vec<(String, String)>)
        requires
            outcomes@.len() >= self@.requests.len(),
        ensures
            pair_views(r@) == mounts_attempted(
                self@.blocks,
                self@.requests,
                self@.force,
                outcomes@,
            ),
    {
        let ghost b = self@.blocks;
        let ghost q = self@.requests;
        let ghost o = outcomes@;
        let n = self.mount_list.len();
        let mut attempts: Vec<(String, String)> = Vec::new();
        let mut i: usize = 0;
        let mut oi: usize = 0;
        proof {
            assert(q.skip(0) =~= q);
            assert(o.skip(0) =~= o);
            assert(pair_views(attempts@) =~~= Seq::<(Seq<char>, Seq<char>)>::empty());
            assert(pair_views(attempts@) + mounts_attempted(b, q, self@.force, o)
                =~~= mounts_attempted(b, q, self@.force, o));
        }
        while i < n
            invariant
                n == self.mount_list@.len(),
                b == self@.blocks,
                q == self@.requests,
                o == outcomes@,
                q.len() == n,
                o.len() >= n,
                oi <= i <= n,
                mounts_attempted(b, q, self@.force, o) == pair_views(attempts@)
                    + mounts_attempted(b, q.skip(i as int), self@.force, o.skip(oi as int)),
            decreases n - i,
        {
            let ghost tail = q.skip(i as int);
            proof {
                assert(tail[0] == q[i as int]);
                assert(tail.skip(1) =~~= q.skip(i + 1));
                assert(q[i as int] == (
                    self.mount_list@[i as int].uuid@,
                    self.mount_list@[i as int].path@,
                ));
            }
            let uuid = self.mount_list[i].uuid.clone();
            let path = self.mount_list[i].path.clone();
            match self.find_name(&uuid) {
                Some(name) => {
                    let ok = outcomes[oi];
                    proof {
                        assert(resolve_spec(b, tail[0].0) == Some(name@));
                        assert(o.skip(oi as int)[0] == o[oi as int]);
                        assert(o.skip(oi as int).skip(1) =~~= o.skip(oi + 1));
                    }
                    attempts.push((name, path));
                    if ok || self.force {
                        proof {
                            assert(mounts_attempted(b, tail, self@.force, o.skip(oi as int))
                                == seq![(resolve_spec(b, tail[0].0)->Some_0, tail[0].1)]
                                + mounts_attempted(b, q.skip(i + 1), self@.force, o.skip(oi + 1)));
                            assert(mounts_attempted(b, q, self@.force, o) =~~= pair_views(
                                attempts@,
                            ) + mounts_attempted(b, q.skip(i + 1), self@.force, o.skip(oi + 1)));
                        }
                        oi = oi + 1;
                        i = i + 1;
                    } else {
                        proof {
                            assert(mounts_attempted(b, tail, self@.force, o.skip(oi as int))
                                == seq![(resolve_spec(b, tail[0].0)->Some_0, tail[0].1)]);
                            assert(q.skip(n as int).len() == 0);
                            assert(mounts_attempted(b, q.skip(n as int), self@.force, o.skip(
                                oi + 1,
                            )) == Seq::<(Seq<char>, Seq<char>)>::empty());
                            assert(mounts_attempted(b, q, self@.force, o) =~~= pair_views(
                                attempts@,
                            ) + mounts_attempted(b, q.skip(n as int), self@.force, o.skip(oi + 1)));
                        }
                        oi = oi + 1;
                        i = n;
                    }
                },
                None => {
                    proof {
                        assert(resolve_spec(b, tail[0].0) is None);
                        assert(mounts_attempted(b, tail, self@.force, o.skip(oi as int))
                            == mounts_attempted(b, q.skip(i + 1), self@.force, o.skip(oi as int)));
                    }
                    i = i + 1;
                },
            }
        }
        proof {
            assert(q.skip(n as int).len() == 0);
            assert(mounts_attempted(b, q.skip(n as int), self@.force, o.skip(oi as int))
                == Seq::<(Seq<char>, Seq<char>)>::empty());
            assert(pair_views(attempts@) + Seq::<(Seq<char>, Seq<char>)>::empty() =~~= pair_views(
                attempts@,
            ));
        }
        attempts
    }

    /// The force policy currently held.
    pub fn force_policy(&self) -> (b: bool)
        ensures
            b == self@.force,
    {
        self.force
    }

    /// How many mount requests are held.
    pub fn requests_len(&self) -> (n: usize)
        ensures
            n == self@.requests.len(),
    {
        self.mount_list.len()
    }

    /// The (identifier, target path) pair of the request at `i`.
    pub fn request_at(&self, i: usize) -> (r: (String, String))
        requires
            i < self@.requests.len(),
        ensures
            r.0@ == self@.requests[i as int].0,
            r.1@ == self@.requests[i as int].1,
    {
        (self.mount_list[i].uuid.clone(), self.mount_list[i].path.clone())
    }

    /// How many inventory records are held.
    pub fn blocks_len(&self) -> (n: usize)
        ensures
            n == self@.blocks.len(),
    {
        self.blocks.len()
    }

    /// The (device name, identifier) pair of the inventory record at `i`.
    pub fn block_at(&self, i: usize) -> (r: (String, String))
        requires
            i < self@.blocks.len(),
        ensures
            r.0@ == self@.blocks[i as int].0,
            r.1@ == self@.blocks[i as int].1,
    {
        (self.blocks[i].name.clone(), self.blocks[i].uuid.clone())
    }
}

} // verus!
