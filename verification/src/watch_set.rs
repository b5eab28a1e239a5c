use vstd::prelude::*;

use crate::paths::{covers, dir_or_cwd, lemma_covers_trans, parent_dir, path_covers};

verus! {

// ---------------------------------------------------------------------------
// Reducing a set of files to the smallest set of directories to watch
// ---------------------------------------------------------------------------

/// No directory in `dirs` covers another one: the set carries no redundant
/// registration.
pub open spec fn no_redundancy(dirs: Seq<Seq<char>>) -> bool {
    forall|i: int, j: int|
        0 <= i < dirs.len() && 0 <= j < dirs.len() && i != j ==> !covers(dirs[i], dirs[j])
}

/// Some directory in `dirs` covers `d`.
pub open spec fn covered_by(dirs: Seq<Seq<char>>, d: Seq<char>) -> bool {
    exists|i: int| 0 <= i < dirs.len() && covers(dirs[i], d)
}

/// `d` is the watch directory of one of the `paths`: its parent directory,
/// or `cwd` for a path without one.
pub open spec fn is_dir_of_some(d: Seq<char>, paths: Seq<Seq<char>>, cwd: Seq<char>) -> bool {
    exists|k: int| 0 <= k < paths.len() && d == dir_or_cwd(paths[k], cwd)
}

/// Computes the smallest set of directories to register with the
/// filesystem-notification backend so that the parent directory of every
/// path in `paths` is observed. A path without a parent falls back to `cwd`.
///
/// The result contains no two directories where one is an ancestor of (or
/// equal to) the other, every input path's parent is covered by some result
/// directory, and every result directory is the parent of some input path.
pub fn reduce_watch_dirs(paths: &Vec<String>, cwd: &str) -> (dirs: Vec<String>)
    ensures
        no_redundancy(dirs.deep_view()),
        forall|k: int|
            0 <= k < paths@.len() ==> covered_by(
                dirs.deep_view(),
                dir_or_cwd(#[trigger] paths.deep_view()[k], cwd@),
            ),
        forall|i: int|
            0 <= i < dirs@.len() ==> is_dir_of_some(
                #[trigger] dirs.deep_view()[i],
                paths.deep_view(),
                cwd@,
            ),
{
    let mut dirs: Vec<String> = Vec::new();
    let mut k: usize = 0;
    while k < paths.len()
        invariant
            k <= paths@.len(),
            no_redundancy(dirs.deep_view()),
            forall|m: int|
                0 <= m < k ==> covered_by(
                    dirs.deep_view(),
                    dir_or_cwd(#[trigger] paths.deep_view()[m], cwd@),
                ),
            forall|i: int|
                0 <= i < dirs@.len() ==> is_dir_of_some(
                    #[trigger] dirs.deep_view()[i],
                    paths.deep_view(),
                    cwd@,
                ),
        decreases paths@.len() - k,
    {
        let cand: String = match parent_dir(paths[k].as_str()) {
            Some(d) => d,
            None => String::from_str(cwd),
        };
        proof {
            assert(paths@[k as int]@ == paths.deep_view()[k as int]);
            assert(cand@ == dir_or_cwd(paths.deep_view()[k as int], cwd@));
        }

        // Is the candidate already covered by a registered directory?
        let mut covered = false;
        let mut i: usize = 0;
        while i < dirs.len()
            invariant
                i <= dirs@.len(),
                covered ==> covered_by(dirs.deep_view(), cand@),
                !covered ==> forall|m: int| 0 <= m < i ==> !covers(
                    #[trigger] dirs.deep_view()[m],
                    cand@,
                ),
            decreases dirs@.len() - i,
        {
            if path_covers(dirs[i].as_str(), cand.as_str()) {
                proof {
                    assert(dirs@[i as int]@ == dirs.deep_view()[i as int]);
                }
                covered = true;
            }
            i = i + 1;
        }

        if !covered {
            // Drop every registered directory that the candidate covers,
            // then register the candidate.
            let ghost old_dirs = dirs.deep_view();
            let mut kept: Vec<String> = Vec::new();
            let mut j: usize = 0;
            while j < dirs.len()
                invariant
                    j <= dirs@.len(),
                    dirs.deep_view() == old_dirs,
                    no_redundancy(old_dirs),
                    no_redundancy(kept.deep_view()),
                    forall|m: int|
                        0 <= m < kept@.len() ==> !covers(cand@, #[trigger] kept.deep_view()[m]),
                    forall|m: int|
                        0 <= m < kept@.len() ==> exists|n: int|
                            0 <= n < j && #[trigger] kept.deep_view()[m] == old_dirs[n],
                    forall|n: int|
                        0 <= n < j ==> covers(cand@, #[trigger] old_dirs[n]) || exists|m: int|
                            0 <= m < kept@.len() && kept.deep_view()[m] == old_dirs[n],
                decreases dirs@.len() - j,
            {
                proof {
                    assert(dirs@[j as int]@ == dirs.deep_view()[j as int]);
                }
                if !path_covers(cand.as_str(), dirs[j].as_str()) {
                    let ghost kept_before = kept.deep_view();
                    kept.push(dirs[j].clone());
                    proof {
                        assert(kept.deep_view() =~= kept_before.push(old_dirs[j as int]));
                        let kv = kept.deep_view();
                        assert forall|m1: int, m2: int|
                            0 <= m1 < kv.len() && 0 <= m2 < kv.len() && m1
                                != m2 implies !covers(kv[m1], kv[m2]) by {
                            if m1 < kept_before.len() && m2 < kept_before.len() {
                                assert(!covers(kept_before[m1], kept_before[m2]));
                            } else if m1 < kept_before.len() {
                                let n = choose|n: int|
                                    0 <= n < j && kept_before[m1] == old_dirs[n];
                                assert(kept_before[m1] == old_dirs[n]);
                                assert(!covers(old_dirs[n], old_dirs[j as int]));
                            } else {
                                assert(m2 < kept_before.len());
                                let n = choose|n: int|
                                    0 <= n < j && kept_before[m2] == old_dirs[n];
                                assert(kept_before[m2] == old_dirs[n]);
                                assert(!covers(old_dirs[j as int], old_dirs[n]));
                            }
                        }
                        assert forall|n: int|
                            0 <= n < j + 1 implies covers(cand@, #[trigger] old_dirs[n])
                            || exists|m: int|
                            0 <= m < kv.len() && kv[m] == old_dirs[n] by {
                            if n == j {
                                assert(kv[kept_before.len() as int] == old_dirs[n]);
                            } else if !covers(cand@, old_dirs[n]) {
                                let m = choose|m: int|
                                    0 <= m < kept_before.len() && kept_before[m] == old_dirs[n];
                                assert(kv[m] == old_dirs[n]);
                            }
                        }
                    }
                }
                j = j + 1;
            }
            let ghost kept_view = kept.deep_view();
            kept.push(cand);
            proof {
                assert(kept.deep_view() =~= kept_view.push(cand@));
            }

            proof {
                let new_dirs = kept.deep_view();
                // The new set is free of redundancy: the kept directories were
                // pairwise non-covering, none of them covers the candidate
                // (nothing in the old set did), and the candidate covers none
                // of them (those were dropped).
                assert forall|i2: int, j2: int|
                    0 <= i2 < new_dirs.len() && 0 <= j2 < new_dirs.len() && i2
                        != j2 implies !covers(new_dirs[i2], new_dirs[j2]) by {
                    if i2 < kept_view.len() && j2 < kept_view.len() {
                        assert(!covers(kept_view[i2], kept_view[j2]));
                    } else if j2 < kept_view.len() {
                        assert(!covers(cand@, kept_view[j2]));
                    } else {
                        assert(new_dirs[j2] == cand@);
                        let n1 = choose|n: int|
                            0 <= n < old_dirs.len() && kept_view[i2] == old_dirs[n];
                        assert(old_dirs[n1] == kept_view[i2]);
                        assert(!covers(old_dirs[n1], cand@));
                    }
                }

                // Every path handled so far stays covered: its old witness was
                // either kept, or was itself covered by the candidate.
                assert forall|m: int|
                    0 <= m < k + 1 implies covered_by(
                    new_dirs,
                    dir_or_cwd(#[trigger] paths.deep_view()[m], cwd@),
                ) by {
                    let d = dir_or_cwd(paths.deep_view()[m], cwd@);
                    if m < k {
                        let w = choose|i2: int| 0 <= i2 < old_dirs.len() && covers(old_dirs[i2], d);
                        assert(covers(old_dirs[w], d));
                        if covers(cand@, old_dirs[w]) {
                            lemma_covers_trans(cand@, old_dirs[w], d);
                            assert(new_dirs[new_dirs.len() - 1] == cand@);
                        } else {
                            let m2 = choose|m2: int|
                                0 <= m2 < kept_view.len() && kept_view[m2] == old_dirs[w];
                            assert(new_dirs[m2] == old_dirs[w]);
                        }
                    } else {
                        assert(new_dirs[new_dirs.len() - 1] == cand@);
                        assert(covers(cand@, d));
                    }
                }

                // Every directory in the new set is still the watch directory
                // of some input path.
                assert forall|i2: int|
                    0 <= i2 < new_dirs.len() implies is_dir_of_some(
                    #[trigger] new_dirs[i2],
                    paths.deep_view(),
                    cwd@,
                ) by {
                    if i2 < kept_view.len() {
                        let n = choose|n: int|
                            0 <= n < old_dirs.len() && kept_view[i2] == old_dirs[n];
                        assert(old_dirs[n] == kept_view[i2]);
                        assert(is_dir_of_some(old_dirs[n], paths.deep_view(), cwd@));
                    } else {
                        assert(new_dirs[i2] == cand@);
                        assert(cand@ == dir_or_cwd(paths.deep_view()[k as int], cwd@));
                    }
                }
            }
            dirs = kept;
        } else {
            proof {
                assert forall|m: int|
                    0 <= m < k + 1 implies covered_by(
                    dirs.deep_view(),
                    dir_or_cwd(#[trigger] paths.deep_view()[m], cwd@),
                ) by {
                    if m == k {
                        assert(covered_by(dirs.deep_view(), cand@));
                    }
                }
            }
        }
        k = k + 1;
    }
    dirs
}

} // verus!
