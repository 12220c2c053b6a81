use vstd::multiset::Multiset;
use vstd::prelude::*;

use crate::clock::now_millis;
use crate::diff::{
    chunks_exact, del_count, diff_chars, eq_count, ins_count, lemma_new_side_append,
    lemma_old_side_append, new_side, old_side, render_script, script_of, ChangeStats,
    DiffSegment, DiffUtils, SimilarChunk,
};
use crate::errors::EngineError;
use crate::models::{ChapterVersion, VersionType};
use crate::strutil::{count_non_whitespace, non_ws_count, str_eq};

verus! {

/// The first version in the list carrying the given id, if any. Version
/// lists are handed to the engine newest first, as the store returns them.
pub open spec fn lookup_version(vs: Seq<ChapterVersion>, id: i64) -> Option<ChapterVersion>
    decreases vs.len(),
{
    if vs.len() == 0 {
        None
    } else if vs[0].id == id {
        Some(vs[0])
    } else {
        lookup_version(vs.drop_first(), id)
    }
}

/// The content a version reconstructs to, walking parent links backward until
/// a Snapshot and replaying the Diff payloads forward, with at most `fuel`
/// parent steps. A missing id is `VersionNotFound`; a dangling parent link,
/// a cyclic chain, a Diff without payload, and a payload whose old side does
/// not match the reconstructed parent content are all `BrokenChain`.
pub open spec fn restore_spec(vs: Seq<ChapterVersion>, id: i64, fuel: nat) -> Result<
    Seq<char>,
    EngineError,
>
    decreases fuel,
{
    match lookup_version(vs, id) {
        None => Err(EngineError::VersionNotFound),
        Some(v) => {
            if v.version_type is Snapshot {
                Ok(v.content@)
            } else if fuel == 0 {
                Err(EngineError::BrokenChain)
            } else {
                match v.parent_version_id {
                    None => Err(EngineError::BrokenChain),
                    Some(pid) => match restore_spec(vs, pid, (fuel - 1) as nat) {
                        Err(e) => Err(
                            if e is VersionNotFound {
                                EngineError::BrokenChain
                            } else {
                                e
                            },
                        ),
                        Ok(base) => match v.diff_data {
                            None => Err(EngineError::BrokenChain),
                            Some(dd) => if old_side(dd@) == base {
                                Ok(new_side(dd@))
                            } else {
                                Err(EngineError::BrokenChain)
                            },
                        },
                    },
                }
            }
        },
    }
}

/// The content a version reconstructs to. A chain longer than the version
/// list itself repeats a version and is therefore cyclic, so a fuel of the
/// list length decides every chain.
pub open spec fn restore_result(vs: Seq<ChapterVersion>, id: i64) -> Result<
    Seq<char>,
    EngineError,
> {
    restore_spec(vs, id, vs.len())
}

/// A version found under an id carries that id.
pub proof fn lemma_lookup_id(vs: Seq<ChapterVersion>, id: i64)
    ensures
        lookup_version(vs, id) matches Some(v) ==> v.id == id,
    decreases vs.len(),
{
    if vs.len() > 0 && vs[0].id != id {
        lemma_lookup_id(vs.drop_first(), id);
    }
}

/// Two version records carry the same data, their change payloads compared
/// segment by segment.
pub open spec fn same_version_data(a: ChapterVersion, b: ChapterVersion) -> bool {
    &&& a.id == b.id
    &&& a.chapter_id == b.chapter_id
    &&& a.parent_version_id == b.parent_version_id
    &&& a.version_type == b.version_type
    &&& a.content == b.content
    &&& a.word_count == b.word_count
    &&& a.created_at == b.created_at
    &&& a.commit_message == b.commit_message
    &&& a.is_auto_save == b.is_auto_save
    &&& (a.diff_data is Some <==> b.diff_data is Some)
    &&& (a.diff_data is Some ==> a.diff_data->Some_0@ == b.diff_data->Some_0@)
}

/// Manages, per chapter, the ordered sequence of versions alternating
/// between full-content snapshots and incremental diffs. The caller fetches
/// a chapter's versions from the store, newest first, and hands them in;
/// the manager never touches storage itself.
pub struct VersionManager;

impl VersionManager {
    pub fn new() -> (r: Self) {
        VersionManager
    }

    /// The version with the given id.
    pub fn get_version<'a>(&self, versions: &'a Vec<ChapterVersion>, version_id: i64) -> (r:
        Result<&'a ChapterVersion, EngineError>)
        ensures
            match r {
                Ok(v) => lookup_version(versions@, version_id) == Some(*v),
                Err(e) => lookup_version(versions@, version_id) is None
                    && e is VersionNotFound,
            },
    {
        let ghost whole = versions@;
        proof {
            assert(whole.subrange(0, whole.len() as int) =~= whole);
        }
        let mut i: usize = 0;
        while i < versions.len()
            invariant
                i <= whole.len(),
                versions@ == whole,
                lookup_version(whole, version_id) == lookup_version(
                    whole.subrange(i as int, whole.len() as int),
                    version_id,
                ),
            decreases whole.len() - i,
        {
            proof {
                assert(whole.subrange(i as int, whole.len() as int).drop_first()
                    =~= whole.subrange(i + 1, whole.len() as int));
            }
            if versions[i].id == version_id {
                return Ok(&versions[i]);
            }
            i = i + 1;
        }
        Err(EngineError::VersionNotFound)
    }

    /// Replay an edit script against a base text: unchanged and inserted runs
    /// are kept, deleted runs are dropped. The script's old side must spell
    /// out the base text exactly; a mismatch is a broken-chain fault, never a
    /// partial result.
    pub fn apply_diff(&self, base_content: &str, diff_data: &Vec<DiffSegment>) -> (r: Result<
        String,
        EngineError,
    >)
        ensures
            old_side(diff_data@) == base_content@ ==> (r matches Ok(s) && s@ == new_side(
                diff_data@,
            )),
            old_side(diff_data@) != base_content@ ==> (r matches Err(e) && e is BrokenChain),
    {
        let ghost whole = diff_data@;
        let mut old_acc = String::new();
        let mut new_acc = String::new();
        proof {
            assert(whole.subrange(0, 0) =~= Seq::<DiffSegment>::empty());
        }
        let mut i: usize = 0;
        while i < diff_data.len()
            invariant
                i <= whole.len(),
                diff_data@ == whole,
                old_acc@ == old_side(whole.subrange(0, i as int)),
                new_acc@ == new_side(whole.subrange(0, i as int)),
            decreases whole.len() - i,
        {
            proof {
                reveal_with_fuel(old_side, 2);
                reveal_with_fuel(new_side, 2);
                assert(seq![whole[i as int]].drop_first() =~= Seq::<DiffSegment>::empty());
                lemma_old_side_append(whole.subrange(0, i as int), seq![whole[i as int]]);
                lemma_new_side_append(whole.subrange(0, i as int), seq![whole[i as int]]);
                assert(whole.subrange(0, i as int) + seq![whole[i as int]] =~= whole.subrange(
                    0,
                    i + 1,
                ));
            }
            let seg = &diff_data[i];
            match seg.kind {
                crate::diff::DiffKind::Equal => {
                    old_acc.append(seg.text.as_str());
                    new_acc.append(seg.text.as_str());
                },
                crate::diff::DiffKind::Delete => {
                    old_acc.append(seg.text.as_str());
                },
                crate::diff::DiffKind::Insert => {
                    new_acc.append(seg.text.as_str());
                },
            }
            i = i + 1;
        }
        proof {
            assert(whole.subrange(0, whole.len() as int) =~= whole);
        }
        if str_eq(old_acc.as_str(), base_content) {
            Ok(new_acc)
        } else {
            Err(EngineError::BrokenChain)
        }
    }

    /// Reconstruct the full text of the given version, following parent
    /// links back to the nearest Snapshot and replaying the Diff payloads
    /// forward from there.
    pub fn restore_to_version(&self, versions: &Vec<ChapterVersion>, version_id: i64) -> (r:
        Result<String, EngineError>)
        ensures
            match r {
                Ok(s) => restore_result(versions@, version_id) == Ok::<Seq<char>, EngineError>(
                    s@,
                ),
                Err(e) => restore_result(versions@, version_id) == Err::<Seq<char>, EngineError>(
                    e,
                ),
            },
    {
        self.restore_with_fuel(versions, version_id, versions.len())
    }

    fn restore_with_fuel(&self, versions: &Vec<ChapterVersion>, version_id: i64, fuel: usize) -> (
        r: Result<String, EngineError>)
        ensures
            match r {
                Ok(s) => restore_spec(versions@, version_id, fuel as nat) == Ok::<
                    Seq<char>,
                    EngineError,
                >(s@),
                Err(e) => restore_spec(versions@, version_id, fuel as nat) == Err::<
                    Seq<char>,
                    EngineError,
                >(e),
            },
        decreases fuel,
    {
        let v = match self.get_version(versions, version_id) {
            Ok(v) => v,
            Err(e) => {
                return Err(e);
            },
        };
        if v.version_type == VersionType::Snapshot {
            return Ok(v.content.clone());
        }
        if fuel == 0 {
            return Err(EngineError::BrokenChain);
        }
        let pid = match v.parent_version_id {
            None => {
                return Err(EngineError::BrokenChain);
            },
            Some(p) => p,
        };
        let base = match self.restore_with_fuel(versions, pid, fuel - 1) {
            Ok(b) => b,
            Err(e) => {
                if let EngineError::VersionNotFound = e {
                    return Err(EngineError::BrokenChain);
                }
                return Err(e);
            },
        };
        match &v.diff_data {
            None => Err(EngineError::BrokenChain),
            Some(dd) => self.apply_diff(base.as_str(), dd),
        }
    }

    /// Build the next version record for a chapter from its existing
    /// versions, newest first. Every save whose count of prior versions is a
    /// multiple of ten becomes a full Snapshot; every other save becomes a
    /// Diff computed against the reconstructed content of the immediately
    /// preceding version. The caller persists the returned record; its id is
    /// zero until the store assigns one.
    pub fn create_version(
        &self,
        existing: &Vec<ChapterVersion>,
        chapter_id: i64,
        content: &str,
        commit_message: Option<&str>,
        is_auto_save: bool,
    ) -> (r: Result<ChapterVersion, EngineError>)
        requires
            content@.len() <= 0x7fffffff,
        ensures
            r is Ok <==> (existing@.len() % 10 == 0 || restore_result(
                existing@,
                existing@[0].id,
            ) is Ok),
            r matches Ok(v) ==> v.id == 0 && v.chapter_id == chapter_id && v.word_count
                == non_ws_count(content@) && v.is_auto_save == is_auto_save
                && v.parent_version_id == (if existing@.len() > 0 {
                Some(existing@[0].id)
            } else {
                None::<i64>
            }) && (v.version_type is Snapshot <==> existing@.len() % 10 == 0) && (
            match commit_message {
                Some(m) => v.commit_message@ == m@,
                None => v.commit_message@ == Seq::<char>::empty(),
            }),
            r matches Ok(v) ==> (existing@.len() % 10 == 0 ==> v.content@ == content@
                && v.diff_data is None),
            r matches Ok(v) ==> (existing@.len() % 10 != 0 ==> ((v.diff_data matches Some(dd)
                && restore_result(existing@, existing@[0].id) == Ok::<Seq<char>, EngineError>(
                old_side(dd@),
            ) && new_side(dd@) == content@) && v.content@ == Seq::<char>::empty())),
            r matches Err(e) ==> existing@.len() % 10 != 0 && restore_result(
                existing@,
                existing@[0].id,
            ) == Err::<Seq<char>, EngineError>(e),
    {
        let parent_version_id: Option<i64> = if existing.len() > 0 {
            Some(existing[0].id)
        } else {
            None
        };
        let word_count = count_non_whitespace(content) as i32;
        let commit = match commit_message {
            Some(m) => String::from_str(m),
            None => String::new(),
        };
        let created_at = now_millis();
        if existing.len() % 10 == 0 {
            Ok(
                ChapterVersion {
                    id: 0,
                    chapter_id,
                    parent_version_id,
                    version_type: VersionType::Snapshot,
                    content: String::from_str(content),
                    diff_data: None,
                    word_count,
                    created_at,
                    commit_message: commit,
                    is_auto_save,
                },
            )
        } else {
            let previous_content = match self.restore_to_version(existing, existing[0].id) {
                Ok(c) => c,
                Err(e) => {
                    return Err(e);
                },
            };
            let segs = diff_chars(previous_content.as_str(), content);
            Ok(
                ChapterVersion {
                    id: 0,
                    chapter_id,
                    parent_version_id,
                    version_type: VersionType::Diff,
                    content: String::new(),
                    diff_data: Some(segs),
                    word_count,
                    created_at,
                    commit_message: commit,
                    is_auto_save,
                },
            )
        }
    }

    /// Restore both versions and compare their contents: the annotated diff,
    /// the change statistics, and the near-duplicate line pairs.
    pub fn compare_versions(
        &self,
        versions: &Vec<ChapterVersion>,
        version1_id: i64,
        version2_id: i64,
    ) -> (r: Result<VersionComparison, EngineError>)
        ensures
            r is Ok <==> (restore_result(versions@, version1_id) is Ok && restore_result(
                versions@,
                version2_id,
            ) is Ok),
            r matches Ok(c) ==> ({
                let c1 = restore_result(versions@, version1_id)->Ok_0;
                let c2 = restore_result(versions@, version2_id)->Ok_0;
                &&& (lookup_version(versions@, version1_id) matches Some(v1)
                    && same_version_data(c.version1, v1))
                &&& (lookup_version(versions@, version2_id) matches Some(v2)
                    && same_version_data(c.version2, v2))
                &&& c.diff@ == render_script(script_of(c1, c2))
                &&& c.statistics.insertions == ins_count(script_of(c1, c2))
                &&& c.statistics.deletions == del_count(script_of(c1, c2))
                &&& c.statistics.unchanged == eq_count(script_of(c1, c2))
                &&& c.statistics.insertions + c.statistics.unchanged == c2.len()
                &&& c.statistics.deletions + c.statistics.unchanged == c1.len()
                &&& (c.statistics.insertions + c.statistics.deletions <= usize::MAX
                    ==> c.statistics.total_changes == c.statistics.insertions
                    + c.statistics.deletions)
                &&& chunks_exact(c.similar_chunks@, c1, c2, 10)
                &&& (c1 == c2 ==> c.statistics.insertions == 0 && c.statistics.deletions == 0
                    && c.statistics.unchanged == c1.len() && c.diff@ == c2)
            }),
            r matches Err(e) ==> e == (if lookup_version(versions@, version1_id) is None
                || lookup_version(versions@, version2_id) is None {
                EngineError::VersionNotFound
            } else if restore_result(versions@, version1_id) is Err {
                restore_result(versions@, version1_id)->Err_0
            } else {
                restore_result(versions@, version2_id)->Err_0
            }),
    {
        proof {
            lemma_lookup_id(versions@, version1_id);
            lemma_lookup_id(versions@, version2_id);
        }
        let version1 = match self.get_version(versions, version1_id) {
            Ok(v) => v.clone(),
            Err(e) => {
                return Err(e);
            },
        };
        let version2 = match self.get_version(versions, version2_id) {
            Ok(v) => v.clone(),
            Err(e) => {
                return Err(e);
            },
        };
        let content1 = match self.restore_to_version(versions, version1_id) {
            Ok(c) => c,
            Err(e) => {
                return Err(e);
            },
        };
        let content2 = match self.restore_to_version(versions, version2_id) {
            Ok(c) => c,
            Err(e) => {
                return Err(e);
            },
        };
        let diff = DiffUtils::calculate_diff(content1.as_str(), content2.as_str());
        let statistics = DiffUtils::get_change_statistics(content1.as_str(), content2.as_str());
        let similar_chunks = DiffUtils::find_similar_chunks(
            content1.as_str(),
            content2.as_str(),
            10,
        );
        Ok(VersionComparison { version1, version2, diff, statistics, similar_chunks })
    }
}

/// The timeline entry derived from a version record: its metadata without
/// any content.
pub open spec fn entry_of(v: ChapterVersion) -> VersionTimelineEntry {
    VersionTimelineEntry {
        version_id: v.id,
        created_at: v.created_at,
        commit_message: v.commit_message,
        version_type: v.version_type,
        word_count: v.word_count,
        is_auto_save: v.is_auto_save,
    }
}

proof fn lemma_insert_to_multiset<T>(s: Seq<T>, p: int, e: T)
    requires
        0 <= p <= s.len(),
    ensures
        s.insert(p, e).to_multiset() =~= s.to_multiset().insert(e),
{
    broadcast use vstd::seq_lib::group_seq_properties;

    let left = s.subrange(0, p);
    let right = s.subrange(p, s.len() as int);
    assert(s.insert(p, e) =~= left + (seq![e] + right));
    vstd::seq_lib::lemma_multiset_commutative(left, seq![e] + right);
    vstd::seq_lib::lemma_multiset_commutative(seq![e], right);
    vstd::seq_lib::lemma_multiset_commutative(left, right);
    assert(s =~= left + right);
    assert(seq![e] =~= Seq::<T>::empty().push(e));
    Seq::<T>::empty().to_multiset_ensures();
    assert(Seq::<T>::empty().to_multiset().len() == 0);
    assert(Seq::<T>::empty().to_multiset() =~= Multiset::<T>::empty());
    assert(seq![e].to_multiset() =~= Multiset::<T>::empty().insert(e));
}

/// Number of auto-saves among the versions before index `i`, in
/// newest-first order.
pub open spec fn auto_before(vs: Seq<ChapterVersion>, i: int) -> nat {
    vs.subrange(0, i).filter(|v: ChapterVersion| v.is_auto_save).len()
}

/// A version is a pruning candidate when it is an auto-save with at least
/// `keep` newer auto-saves.
pub open spec fn is_prune_candidate(vs: Seq<ChapterVersion>, keep: nat, i: int) -> bool {
    vs[i].is_auto_save && auto_before(vs, i) >= keep
}

/// Start of the longest run of pruning candidates at the old end of the
/// list.
pub open spec fn cand_run_start(vs: Seq<ChapterVersion>, keep: nat) -> int
    decreases vs.len(),
{
    if vs.len() == 0 {
        0
    } else if is_prune_candidate(vs, keep, vs.len() - 1) {
        cand_run_start(vs.drop_last(), keep)
    } else {
        vs.len() as int
    }
}

/// First index at or after `s` where cutting the list leaves a chain that
/// still reconstructs: either nothing is cut, everything is cut, or the
/// oldest retained version is a Snapshot.
pub open spec fn first_ok_boundary(vs: Seq<ChapterVersion>, s: int) -> int
    decreases vs.len() - s,
{
    if s >= vs.len() {
        vs.len() as int
    } else if s == 0 || vs[s - 1].version_type is Snapshot {
        s
    } else {
        first_ok_boundary(vs, s + 1)
    }
}

/// Index of the first version that pruning removes: the maximal removable
/// suffix of candidates that does not orphan any retained Diff.
pub open spec fn prune_start(vs: Seq<ChapterVersion>, keep: nat) -> int {
    first_ok_boundary(vs, cand_run_start(vs, keep))
}

proof fn lemma_candidate_drop_last(vs: Seq<ChapterVersion>, keep: nat, i: int)
    requires
        0 <= i < vs.len() - 1,
    ensures
        is_prune_candidate(vs.drop_last(), keep, i) == is_prune_candidate(vs, keep, i),
{
    assert(vs.drop_last().subrange(0, i) =~= vs.subrange(0, i));
}

proof fn lemma_cand_run_start_char(vs: Seq<ChapterVersion>, keep: nat)
    ensures
        0 <= cand_run_start(vs, keep) <= vs.len(),
        forall|i: int|
            cand_run_start(vs, keep) <= i < vs.len() ==> is_prune_candidate(vs, keep, i),
        cand_run_start(vs, keep) > 0 ==> !is_prune_candidate(
            vs,
            keep,
            cand_run_start(vs, keep) - 1,
        ),
    decreases vs.len(),
{
    if vs.len() > 0 && is_prune_candidate(vs, keep, vs.len() - 1) {
        lemma_cand_run_start_char(vs.drop_last(), keep);
        let crs = cand_run_start(vs, keep);
        assert forall|i: int| crs <= i < vs.len() implies is_prune_candidate(vs, keep, i) by {
            if i < vs.len() - 1 {
                lemma_candidate_drop_last(vs, keep, i);
            }
        }
        if crs > 0 {
            lemma_candidate_drop_last(vs, keep, crs - 1);
        }
    }
}

proof fn lemma_first_ok_boundary_char(vs: Seq<ChapterVersion>, s: int)
    requires
        0 <= s <= vs.len(),
    ensures
        s <= first_ok_boundary(vs, s) <= vs.len(),
    decreases vs.len() - s,
{
    if s < vs.len() && !(s == 0 || vs[s - 1].version_type is Snapshot) {
        lemma_first_ok_boundary_char(vs, s + 1);
    }
}

impl VersionManager {
    /// The version history of a chapter as display metadata, newest first.
    pub fn get_version_timeline(&self, versions: &Vec<ChapterVersion>) -> (r: Vec<
        VersionTimelineEntry,
    >)
        ensures
            r@.len() == versions@.len(),
            r@.to_multiset() == versions@.map_values(|v: ChapterVersion| entry_of(v))
                .to_multiset(),
            forall|k1: int, k2: int|
                0 <= k1 < k2 < r@.len() ==> r@[k1].created_at >= r@[k2].created_at,
    {
        let ghost whole = versions@;
        let ghost mapped = versions@.map_values(|v: ChapterVersion| entry_of(v));
        let mut r: Vec<VersionTimelineEntry> = Vec::new();
        proof {
            assert(mapped.subrange(0, 0) =~= Seq::<VersionTimelineEntry>::empty());
            Seq::<VersionTimelineEntry>::empty().to_multiset_ensures();
            assert(Seq::<VersionTimelineEntry>::empty().to_multiset().len() == 0);
            assert(r@.to_multiset() =~= mapped.subrange(0, 0).to_multiset());
        }
        let mut i: usize = 0;
        while i < versions.len()
            invariant
                i <= whole.len(),
                versions@ == whole,
                mapped == whole.map_values(|v: ChapterVersion| entry_of(v)),
                r@.len() == i as int,
                r@.to_multiset() == mapped.subrange(0, i as int).to_multiset(),
                forall|k1: int, k2: int|
                    0 <= k1 < k2 < r@.len() ==> r@[k1].created_at >= r@[k2].created_at,
            decreases whole.len() - i,
        {
            let v = &versions[i];
            let entry = VersionTimelineEntry {
                version_id: v.id,
                created_at: v.created_at,
                commit_message: v.commit_message.clone(),
                version_type: v.version_type,
                word_count: v.word_count,
                is_auto_save: v.is_auto_save,
            };
            proof {
                assert(entry == entry_of(whole[i as int]));
                assert(entry == mapped[i as int]);
            }
            let mut p: usize = 0;
            while p < r.len() && r[p].created_at >= entry.created_at
                invariant
                    p <= r@.len(),
                    forall|k: int| 0 <= k < p ==> r@[k].created_at >= entry.created_at,
                decreases r@.len() - p,
            {
                p = p + 1;
            }
            proof {
                lemma_insert_to_multiset(r@, p as int, entry);
                mapped.subrange(0, i as int).to_multiset_ensures();
                assert(mapped.subrange(0, i as int).push(mapped[i as int]) =~= mapped.subrange(
                    0,
                    i + 1,
                ));
            }
            r.insert(p, entry);
            i = i + 1;
        }
        proof {
            assert(mapped.subrange(0, mapped.len() as int) =~= mapped);
        }
        r
    }

    /// Decide which versions auto-save pruning removes: the auto-saves
    /// beyond the `keep_count` most recent ones, taken as one block from the
    /// old end of the history, cut only at a point where the oldest retained
    /// version is a Snapshot so that no retained Diff is orphaned. Returns
    /// the ids to delete, newest first; the caller performs the deletion.
    pub fn cleanup_auto_save_versions(
        &self,
        versions: &Vec<ChapterVersion>,
        keep_count: usize,
    ) -> (r: Vec<i64>)
        ensures
            r@ == versions@.subrange(
                prune_start(versions@, keep_count as nat),
                versions@.len() as int,
            ).map_values(|v: ChapterVersion| v.id),
    {
        let ghost whole = versions@;
        let ghost keep = keep_count as nat;
        let n = versions.len();
        let mut cand: Vec<bool> = Vec::new();
        let mut auto_cnt: usize = 0;
        proof {
            assert(whole.subrange(0, 0) =~= Seq::<ChapterVersion>::empty());
            reveal_with_fuel(Seq::filter, 1);
        }
        let mut i: usize = 0;
        while i < n
            invariant
                i <= n,
                n == whole.len(),
                versions@ == whole,
                cand@.len() == i as int,
                keep == keep_count as nat,
                auto_cnt == auto_before(whole, i as int),
                auto_cnt <= i,
                forall|k: int| 0 <= k < i ==> cand@[k] == is_prune_candidate(whole, keep, k),
            decreases n - i,
        {
            proof {
                reveal_with_fuel(Seq::filter, 2);
                assert(whole.subrange(0, i + 1).drop_last() =~= whole.subrange(0, i as int));
                assert(whole.subrange(0, i + 1).last() == whole[i as int]);
            }
            let is_cand = versions[i].is_auto_save && auto_cnt >= keep_count;
            proof {
                assert(is_cand == is_prune_candidate(whole, keep, i as int));
            }
            cand.push(is_cand);
            if versions[i].is_auto_save {
                auto_cnt = auto_cnt + 1;
            }
            i = i + 1;
        }
        let mut t: usize = n;
        while t > 0 && cand[t - 1]
            invariant
                t <= n,
                n == whole.len(),
                keep == keep_count as nat,
                cand@.len() == n as int,
                forall|k: int| 0 <= k < n ==> cand@[k] == is_prune_candidate(whole, keep, k),
                forall|k: int| t <= k < n ==> is_prune_candidate(whole, keep, k),
            decreases t,
        {
            t = t - 1;
        }
        proof {
            lemma_cand_run_start_char(whole, keep);
            let crs = cand_run_start(whole, keep);
            if t < crs {
                assert(is_prune_candidate(whole, keep, crs - 1));
            }
            if t > crs {
                assert(is_prune_candidate(whole, keep, t - 1));
            }
            assert(t == crs);
        }
        let mut s: usize = t;
        while s < n && s != 0 && !(matches!(versions[s - 1].version_type, VersionType::Snapshot))
            invariant
                t <= s <= n,
                n == whole.len(),
                versions@ == whole,
                first_ok_boundary(whole, t as int) == first_ok_boundary(whole, s as int),
            decreases n - s,
        {
            s = s + 1;
        }
        proof {
            assert(first_ok_boundary(whole, s as int) == s);
            assert(prune_start(whole, keep) == s);
        }
        let mut r: Vec<i64> = Vec::new();
        proof {
            assert(r@ =~= whole.subrange(s as int, s as int).map_values(
                |v: ChapterVersion| v.id,
            ));
        }
        let mut k: usize = s;
        while k < n
            invariant
                s <= k <= n,
                n == whole.len(),
                versions@ == whole,
                r@ == whole.subrange(s as int, k as int).map_values(|v: ChapterVersion| v.id),
            decreases n - k,
        {
            r.push(versions[k].id);
            proof {
                assert(r@ =~= whole.subrange(s as int, k + 1).map_values(
                    |v: ChapterVersion| v.id,
                ));
            }
            k = k + 1;
        }
        r
    }
}

/// A Diff version whose parent is a Snapshot holding exactly the old side of
/// its payload restores to the payload's new side. In particular, saving a
/// text and then a second text and restoring the newest version yields the
/// second text exactly.
pub proof fn lemma_diff_restores_exactly(vs: Seq<ChapterVersion>, id: i64)
    requires
        lookup_version(vs, id) is Some,
        lookup_version(vs, id)->Some_0.version_type is Diff,
        lookup_version(vs, id)->Some_0.parent_version_id is Some,
        lookup_version(vs, id)->Some_0.diff_data is Some,
        lookup_version(vs, lookup_version(vs, id)->Some_0.parent_version_id->Some_0) is Some,
        lookup_version(
            vs,
            lookup_version(vs, id)->Some_0.parent_version_id->Some_0,
        )->Some_0.version_type is Snapshot,
        old_side(lookup_version(vs, id)->Some_0.diff_data->Some_0@) == lookup_version(
            vs,
            lookup_version(vs, id)->Some_0.parent_version_id->Some_0,
        )->Some_0.content@,
    ensures
        restore_result(vs, id) == Ok::<Seq<char>, EngineError>(
            new_side(lookup_version(vs, id)->Some_0.diff_data->Some_0@),
        ),
{
    assert(vs.len() >= 1) by {
        if vs.len() == 0 {
            assert(lookup_version(vs, id) is None);
        }
    }
    let v = lookup_version(vs, id)->Some_0;
    let pid = v.parent_version_id->Some_0;
    assert(restore_spec(vs, pid, (vs.len() - 1) as nat) == Ok::<Seq<char>, EngineError>(
        lookup_version(vs, pid)->Some_0.content@,
    ));
}

/// The timeline entry type: version metadata without content.
#[derive(Debug)]
pub struct VersionTimelineEntry {
    pub version_id: i64,
    pub created_at: i64,
    pub commit_message: String,
    pub version_type: VersionType,
    pub word_count: i32,
    pub is_auto_save: bool,
}

/// The outcome of comparing two versions: the two records, the annotated
/// diff of their restored contents, the change statistics, and the
/// near-duplicate line pairs.
#[derive(Debug)]
pub struct VersionComparison {
    pub version1: ChapterVersion,
    pub version2: ChapterVersion,
    pub diff: String,
    pub statistics: ChangeStats,
    pub similar_chunks: Vec<SimilarChunk>,
}

} // verus!
