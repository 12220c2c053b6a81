use vstd::prelude::*;

use crate::strutil::str_eq;

verus! {

/// Tag of one run of characters in an edit script.
#[derive(Debug, Clone, Copy, PartialEq, Eq, Structural)]
pub enum DiffKind {
    Equal,
    Delete,
    Insert,
}

/// One run of characters of an edit script between two texts. The script is
/// the canonical change payload stored for `Diff`-kind versions: unlike a
/// rendered string it can be replayed exactly.
#[derive(Debug)]
pub struct DiffSegment {
    pub kind: DiffKind,
    pub text: String,
}

impl Clone for DiffSegment {
    fn clone(&self) -> (r: Self)
        ensures
            r == *self,
    {
        DiffSegment { kind: self.kind, text: self.text.clone() }
    }
}

/// The characters a segment contributes to the old text.
pub open spec fn seg_old(seg: DiffSegment) -> Seq<char> {
    if seg.kind is Insert {
        Seq::empty()
    } else {
        seg.text@
    }
}

/// The characters a segment contributes to the new text.
pub open spec fn seg_new(seg: DiffSegment) -> Seq<char> {
    if seg.kind is Delete {
        Seq::empty()
    } else {
        seg.text@
    }
}

/// The old text described by an edit script: the concatenation of its Equal
/// and Delete runs.
pub open spec fn old_side(segs: Seq<DiffSegment>) -> Seq<char>
    decreases segs.len(),
{
    if segs.len() == 0 {
        Seq::empty()
    } else {
        seg_old(segs[0]) + old_side(segs.drop_first())
    }
}

/// The new text described by an edit script: the concatenation of its Equal
/// and Insert runs.
pub open spec fn new_side(segs: Seq<DiffSegment>) -> Seq<char>
    decreases segs.len(),
{
    if segs.len() == 0 {
        Seq::empty()
    } else {
        seg_new(segs[0]) + new_side(segs.drop_first())
    }
}

/// An edit script aligns two texts when replaying its old runs gives the old
/// text and replaying its new runs gives the new text.
pub open spec fn aligns(segs: Seq<DiffSegment>, old_text: Seq<char>, new_text: Seq<char>) -> bool {
    old_side(segs) == old_text && new_side(segs) == new_text
}

/// Characters inserted by an edit script.
pub open spec fn ins_count(segs: Seq<DiffSegment>) -> nat
    decreases segs.len(),
{
    if segs.len() == 0 {
        0
    } else {
        (if segs[0].kind is Insert {
            segs[0].text@.len()
        } else {
            0
        }) + ins_count(segs.drop_first())
    }
}

/// Characters deleted by an edit script.
pub open spec fn del_count(segs: Seq<DiffSegment>) -> nat
    decreases segs.len(),
{
    if segs.len() == 0 {
        0
    } else {
        (if segs[0].kind is Delete {
            segs[0].text@.len()
        } else {
            0
        }) + del_count(segs.drop_first())
    }
}

/// Characters left unchanged by an edit script.
pub open spec fn eq_count(segs: Seq<DiffSegment>) -> nat
    decreases segs.len(),
{
    if segs.len() == 0 {
        0
    } else {
        (if segs[0].kind is Equal {
            segs[0].text@.len()
        } else {
            0
        }) + eq_count(segs.drop_first())
    }
}

pub proof fn lemma_old_side_append(a: Seq<DiffSegment>, b: Seq<DiffSegment>)
    ensures
        old_side(a + b) == old_side(a) + old_side(b),
    decreases a.len(),
{
    if a.len() == 0 {
        assert(a + b =~= b);
        assert(old_side(a) + old_side(b) =~= old_side(b));
    } else {
        lemma_old_side_append(a.drop_first(), b);
        assert((a + b).drop_first() =~= a.drop_first() + b);
        assert(old_side(a + b) == seg_old(a[0]) + old_side(a.drop_first() + b));
        assert(seg_old(a[0]) + (old_side(a.drop_first()) + old_side(b)) =~= (seg_old(a[0])
            + old_side(a.drop_first())) + old_side(b));
    }
}

pub proof fn lemma_new_side_append(a: Seq<DiffSegment>, b: Seq<DiffSegment>)
    ensures
        new_side(a + b) == new_side(a) + new_side(b),
    decreases a.len(),
{
    if a.len() == 0 {
        assert(a + b =~= b);
        assert(new_side(a) + new_side(b) =~= new_side(b));
    } else {
        lemma_new_side_append(a.drop_first(), b);
        assert((a + b).drop_first() =~= a.drop_first() + b);
        assert(new_side(a + b) == seg_new(a[0]) + new_side(a.drop_first() + b));
        assert(seg_new(a[0]) + (new_side(a.drop_first()) + new_side(b)) =~= (seg_new(a[0])
            + new_side(a.drop_first())) + new_side(b));
    }
}

/// The per-tag counts add up to the lengths of the two sides.
pub proof fn lemma_counts_match_sides(segs: Seq<DiffSegment>)
    ensures
        ins_count(segs) + eq_count(segs) == new_side(segs).len(),
        del_count(segs) + eq_count(segs) == old_side(segs).len(),
    decreases segs.len(),
{
    if segs.len() > 0 {
        lemma_counts_match_sides(segs.drop_first());
    }
}

/// If every segment is an Equal run, nothing is inserted or deleted.
pub proof fn lemma_all_equal_counts(segs: Seq<DiffSegment>)
    requires
        forall|i: int| 0 <= i < segs.len() ==> segs[i].kind is Equal,
    ensures
        ins_count(segs) == 0,
        del_count(segs) == 0,
    decreases segs.len(),
{
    if segs.len() > 0 {
        lemma_all_equal_counts(segs.drop_first());
    }
}

/// The edit script the diff engine computes for two texts. The underlying
/// algorithm is deterministic, so the script is a function of the two
/// character sequences alone; nothing further is assumed about which of the
/// possible alignments it is.
pub uninterp spec fn script_of(old_text: Seq<char>, new_text: Seq<char>) -> Seq<DiffSegment>;

/// Characters changed between two texts under the engine's script.
pub open spec fn changed_between(old_text: Seq<char>, new_text: Seq<char>) -> nat {
    ins_count(script_of(old_text, new_text)) + del_count(script_of(old_text, new_text))
}

/// Relies on `similar::TextDiff::from_chars` and `iter_all_changes`: the
/// diff is computed by a deterministic algorithm, so the changes are a
/// function of the two texts alone; they come in script order and are
/// tagged Equal, Delete or Insert; the Equal and Delete values concatenate
/// to the old text, the Equal and Insert values concatenate to the new
/// text; identical inputs yield only Equal changes.
#[verifier::external_body]
pub(crate) fn diff_chars(old_text: &str, new_text: &str) -> (segs: Vec<DiffSegment>)
    ensures
        segs@ == script_of(old_text@, new_text@),
        aligns(segs@, old_text@, new_text@),
        old_text@ == new_text@ ==> forall|i: int|
            0 <= i < segs@.len() ==> segs@[i].kind is Equal,
{
    let d = similar::TextDiff::from_chars(old_text, new_text);
    let mut segs = Vec::new();
    for c in d.iter_all_changes() {
        let kind = match c.tag() {
            similar::ChangeTag::Delete => DiffKind::Delete,
            similar::ChangeTag::Insert => DiffKind::Insert,
            similar::ChangeTag::Equal => DiffKind::Equal,
        };
        segs.push(DiffSegment { kind, text: c.value().to_string() });
    }
    segs
}

/// Numeric change statistics between two texts, in characters.
#[derive(Debug, Clone, Copy, PartialEq, Eq, Structural)]
pub struct ChangeStats {
    pub insertions: usize,
    pub deletions: usize,
    pub unchanged: usize,
    pub total_changes: usize,
}

/// A pair of lines from two texts that are nearly identical. `similarity` is
/// the similarity ratio in permille (0 to 1000).
#[derive(Debug, Clone)]
pub struct SimilarChunk {
    pub old_text: String,
    pub new_text: String,
    pub similarity: u32,
    pub old_start: usize,
    pub new_start: usize,
}

/// Copy an edit script segment by segment.
pub fn clone_segments(v: &Vec<DiffSegment>) -> (r: Vec<DiffSegment>)
    ensures
        r@ == v@,
{
    let mut r: Vec<DiffSegment> = Vec::new();
    proof {
        assert(r@ =~= v@.subrange(0, 0));
    }
    let mut i: usize = 0;
    while i < v.len()
        invariant
            i <= v@.len(),
            r@ == v@.subrange(0, i as int),
        decreases v@.len() - i,
    {
        r.push(v[i].clone());
        proof {
            assert(r@ =~= v@.subrange(0, i + 1));
        }
        i = i + 1;
    }
    proof {
        assert(v@.subrange(0, v@.len() as int) =~= v@);
    }
    r
}

/// The annotated rendering of one segment: deleted runs are wrapped in a
/// delete marker, inserted runs in an insert marker, unchanged runs pass
/// through verbatim.
pub open spec fn render_seg(seg: DiffSegment) -> Seq<char> {
    match seg.kind {
        DiffKind::Equal => seg.text@,
        DiffKind::Delete => "[-"@ + seg.text@ + "]"@,
        DiffKind::Insert => "[+"@ + seg.text@ + "]"@,
    }
}

/// The annotated rendering of a whole edit script.
pub open spec fn render_script(segs: Seq<DiffSegment>) -> Seq<char>
    decreases segs.len(),
{
    if segs.len() == 0 {
        Seq::empty()
    } else {
        render_seg(segs[0]) + render_script(segs.drop_first())
    }
}

pub proof fn lemma_render_script_append(a: Seq<DiffSegment>, b: Seq<DiffSegment>)
    ensures
        render_script(a + b) == render_script(a) + render_script(b),
    decreases a.len(),
{
    if a.len() == 0 {
        assert(a + b =~= b);
        assert(render_script(a) + render_script(b) =~= render_script(b));
    } else {
        lemma_render_script_append(a.drop_first(), b);
        assert((a + b).drop_first() =~= a.drop_first() + b);
        assert(render_script(a + b) == render_seg(a[0]) + render_script(a.drop_first() + b));
        assert(render_seg(a[0]) + (render_script(a.drop_first()) + render_script(b)) =~= (
        render_seg(a[0]) + render_script(a.drop_first())) + render_script(b));
    }
}

/// A script of Equal runs renders as the unchanged text itself.
pub proof fn lemma_render_all_equal(segs: Seq<DiffSegment>)
    requires
        forall|i: int| 0 <= i < segs.len() ==> segs[i].kind is Equal,
    ensures
        render_script(segs) == new_side(segs),
    decreases segs.len(),
{
    if segs.len() > 0 {
        lemma_render_all_equal(segs.drop_first());
    }
}

pub proof fn lemma_ins_count_append(a: Seq<DiffSegment>, b: Seq<DiffSegment>)
    ensures
        ins_count(a + b) == ins_count(a) + ins_count(b),
    decreases a.len(),
{
    if a.len() == 0 {
        assert(a + b =~= b);
    } else {
        lemma_ins_count_append(a.drop_first(), b);
        assert((a + b).drop_first() =~= a.drop_first() + b);
    }
}

pub proof fn lemma_del_count_append(a: Seq<DiffSegment>, b: Seq<DiffSegment>)
    ensures
        del_count(a + b) == del_count(a) + del_count(b),
    decreases a.len(),
{
    if a.len() == 0 {
        assert(a + b =~= b);
    } else {
        lemma_del_count_append(a.drop_first(), b);
        assert((a + b).drop_first() =~= a.drop_first() + b);
    }
}

pub proof fn lemma_eq_count_append(a: Seq<DiffSegment>, b: Seq<DiffSegment>)
    ensures
        eq_count(a + b) == eq_count(a) + eq_count(b),
    decreases a.len(),
{
    if a.len() == 0 {
        assert(a + b =~= b);
    } else {
        lemma_eq_count_append(a.drop_first(), b);
        assert((a + b).drop_first() =~= a.drop_first() + b);
    }
}

/// Render an edit script as one annotated string.
fn render_segments(segs: &Vec<DiffSegment>) -> (r: String)
    ensures
        r@ == render_script(segs@),
{
    let mut out = String::new();
    proof {
        assert(segs@.subrange(0, 0) =~= Seq::<DiffSegment>::empty());
    }
    let mut i: usize = 0;
    while i < segs.len()
        invariant
            i <= segs@.len(),
            out@ == render_script(segs@.subrange(0, i as int)),
        decreases segs@.len() - i,
    {
        proof {
            reveal_with_fuel(render_script, 2);
            assert(seq![segs@[i as int]].drop_first() =~= Seq::<DiffSegment>::empty());
            lemma_render_script_append(segs@.subrange(0, i as int), seq![segs@[i as int]]);
            assert(segs@.subrange(0, i as int) + seq![segs@[i as int]] =~= segs@.subrange(
                0,
                i + 1,
            ));
            assert(render_script(seq![segs@[i as int]]) == render_seg(segs@[i as int])
                + render_script(Seq::<DiffSegment>::empty()));
            assert(render_seg(segs@[i as int]) + Seq::<char>::empty() =~= render_seg(
                segs@[i as int],
            ));
        }
        let seg = &segs[i];
        match seg.kind {
            DiffKind::Equal => {
                out.append(seg.text.as_str());
            },
            DiffKind::Delete => {
                out.append("[-");
                out.append(seg.text.as_str());
                out.append("]");
            },
            DiffKind::Insert => {
                out.append("[+");
                out.append(seg.text.as_str());
                out.append("]");
            },
        }
        i = i + 1;
    }
    proof {
        assert(segs@.subrange(0, segs@.len() as int) =~= segs@);
    }
    out
}

/// Index of the first newline in `s`, or `s.len()` if there is none.
pub open spec fn next_nl(s: Seq<char>) -> int
    decreases s.len(),
{
    if s.len() == 0 {
        0
    } else if s[0] == '\n' {
        0
    } else {
        1 + next_nl(s.drop_first())
    }
}

pub proof fn lemma_next_nl(s: Seq<char>)
    ensures
        0 <= next_nl(s) <= s.len(),
        forall|m: int| 0 <= m < next_nl(s) ==> s[m] != '\n',
        next_nl(s) < s.len() ==> s[next_nl(s)] == '\n',
    decreases s.len(),
{
    if s.len() > 0 && s[0] != '\n' {
        lemma_next_nl(s.drop_first());
        assert forall|m: int| 0 <= m < next_nl(s) implies s[m] != '\n' by {
            if m > 0 {
                assert(s.drop_first()[m - 1] != '\n');
            }
        }
    }
}

pub proof fn lemma_next_nl_unique(s: Seq<char>, k: int)
    requires
        0 <= k <= s.len(),
        forall|m: int| 0 <= m < k ==> s[m] != '\n',
        k < s.len() ==> s[k] == '\n',
    ensures
        next_nl(s) == k,
    decreases s.len(),
{
    if s.len() == 0 {
    } else if s[0] == '\n' {
        assert(k == 0);
    } else {
        assert(k >= 1);
        assert forall|m: int| 0 <= m < k - 1 implies s.drop_first()[m] != '\n' by {
            assert(s[m + 1] != '\n');
        }
        lemma_next_nl_unique(s.drop_first(), k - 1);
    }
}

/// A line with a trailing carriage return has it stripped.
pub open spec fn strip_cr(l: Seq<char>) -> Seq<char> {
    if l.len() > 0 && l[l.len() - 1] == '\r' {
        l.drop_last()
    } else {
        l
    }
}

/// The lines of a text, separated by newlines, with a carriage return before
/// each newline stripped and no empty line after a trailing newline.
pub open spec fn split_lines(s: Seq<char>) -> Seq<Seq<char>>
    decreases s.len(),
{
    if s.len() == 0 {
        Seq::empty()
    } else {
        let n = next_nl(s);
        if 0 <= n < s.len() {
            seq![strip_cr(s.subrange(0, n))] + split_lines(s.subrange(n + 1, s.len() as int))
        } else {
            seq![strip_cr(s)]
        }
    }
}

/// Split a text into its lines.
pub fn split_into_lines(s: &str) -> (r: Vec<String>)
    ensures
        r@.len() == split_lines(s@).len(),
        forall|k: int| 0 <= k < r@.len() ==> r@[k]@ == split_lines(s@)[k],
{
    let len = s.unicode_len();
    let mut r: Vec<String> = Vec::new();
    let mut start: usize = 0;
    proof {
        assert(s@.subrange(0, len as int) =~= s@);
        assert(r@.map_values(|x: String| x@) + split_lines(s@.subrange(0, len as int))
            =~= split_lines(s@));
    }
    while start < len
        invariant
            start <= len,
            len == s@.len(),
            r@.map_values(|x: String| x@) + split_lines(
                s@.subrange(start as int, len as int),
            ) =~= split_lines(s@),
        decreases len - start,
    {
        let ghost rest = s@.subrange(start as int, len as int);
        let mut j: usize = start;
        let mut found = false;
        while !found && j < len
            invariant
                start <= j <= len,
                len == s@.len(),
                found ==> j < len && s@[j as int] == '\n',
                forall|m: int| start <= m < j ==> s@[m] != '\n',
            decreases len - j, (if found { 0int } else { 1int }),
        {
            if s.get_char(j) == '\n' {
                found = true;
            } else {
                j = j + 1;
            }
        }
        proof {
            assert forall|m: int| 0 <= m < j - start implies rest[m] != '\n' by {
                assert(s@[start + m] != '\n');
            }
            if (j as int) - (start as int) < rest.len() {
                assert(rest[j - start] == s@[j as int]);
            }
            lemma_next_nl_unique(rest, j - start);
        }
        let line_end: usize = if j > start && s.get_char(j - 1) == '\r' {
            j - 1
        } else {
            j
        };
        let line = s.substring_char(start, line_end);
        proof {
            assert(rest.subrange(0, (j - start) as int) =~= s@.subrange(start as int, j as int));
            if j > start && s@[j - 1] == '\r' {
                assert(s@.subrange(start as int, j as int).drop_last() =~= s@.subrange(
                    start as int,
                    line_end as int,
                ));
            }
            assert(line@ == strip_cr(rest.subrange(0, (j - start) as int)));
        }
        r.push(String::from_str(line));
        proof {
            let old_map = r@.drop_last().map_values(|x: String| x@);
            assert(r@.drop_last() == r@.subrange(0, r@.len() - 1));
            assert(r@.map_values(|x: String| x@) =~= old_map.push(line@));
            if j < len {
                assert(rest.subrange((j - start) as int + 1, rest.len() as int) =~= s@.subrange(
                    j + 1,
                    len as int,
                ));
                assert(split_lines(rest) == seq![strip_cr(rest.subrange(0, (j - start) as int))]
                    + split_lines(s@.subrange(j + 1, len as int)));
                assert(old_map.push(line@) + split_lines(s@.subrange(j + 1, len as int))
                    =~= old_map + (seq![line@] + split_lines(s@.subrange(j + 1, len as int))));
            } else {
                assert(rest =~= rest.subrange(0, (j - start) as int));
                assert(split_lines(rest) == seq![strip_cr(rest)]);
                assert(s@.subrange(len as int, len as int) =~= Seq::<char>::empty());
                assert(old_map.push(line@) + split_lines(s@.subrange(len as int, len as int))
                    =~= old_map + seq![line@]);
            }
        }
        if j < len {
            start = j + 1;
        } else {
            start = len;
        }
    }
    proof {
        assert(s@.subrange(len as int, len as int) =~= Seq::<char>::empty());
        assert(r@.map_values(|x: String| x@) =~= split_lines(s@));
        assert forall|k: int| 0 <= k < r@.len() implies r@[k]@ == split_lines(s@)[k] by {
            assert(r@.map_values(|x: String| x@)[k] == r@[k]@);
        }
    }
    r
}

/// Similarity of a line pair in permille: one minus the ratio of changed
/// characters to the first line's length, floored at zero.
pub open spec fn sim_permille(changed: nat, total: nat) -> nat {
    if total == 0 {
        1000
    } else if changed >= total {
        0
    } else {
        (((total - changed) * 1000) / (total as int)) as nat
    }
}

/// A reported chunk pairs a line of the old text with a line of the new
/// text, both at least `min_length` characters long, whose change ratio
/// under some character alignment passes the similarity threshold.
/// Whether a pair of lines qualifies as near-duplicates: both long enough,
/// and the ratio of changed characters to the first line's length below the
/// similarity threshold (an empty first line counts as fully similar).
pub open spec fn pair_qualifies(l1: Seq<char>, l2: Seq<char>, min_length: nat) -> bool {
    &&& l1.len() >= min_length
    &&& l2.len() >= min_length
    &&& (l1.len() == 0 || changed_between(l1, l2) * 10 < 3 * l1.len())
}

pub open spec fn chunk_ok(
    c: SimilarChunk,
    t1: Seq<char>,
    t2: Seq<char>,
    min_length: nat,
) -> bool {
    let l1 = split_lines(t1);
    let l2 = split_lines(t2);
    &&& c.old_start < l1.len()
    &&& c.new_start < l2.len()
    &&& c.old_text@ == l1[c.old_start as int]
    &&& c.new_text@ == l2[c.new_start as int]
    &&& pair_qualifies(c.old_text@, c.new_text@, min_length)
    &&& c.similarity == sim_permille(
        changed_between(c.old_text@, c.new_text@),
        c.old_text@.len(),
    )
}

/// The exact near-duplicate report over two texts: every entry is a
/// qualifying line pair with its similarity, every qualifying line pair is
/// reported, and the entries come in scan order, first by old line then by
/// new line.
pub open spec fn chunks_exact(
    r: Seq<SimilarChunk>,
    t1: Seq<char>,
    t2: Seq<char>,
    min_length: nat,
) -> bool {
    &&& forall|k: int| 0 <= k < r.len() ==> chunk_ok(#[trigger] r[k], t1, t2, min_length)
    &&& forall|i: int, j: int|
        #![trigger split_lines(t1)[i], split_lines(t2)[j]]
        0 <= i < split_lines(t1).len() && 0 <= j < split_lines(t2).len() && pair_qualifies(
            split_lines(t1)[i],
            split_lines(t2)[j],
            min_length,
        ) ==> exists|k: int|
            0 <= k < r.len() && (#[trigger] r[k]).old_start == i && r[k].new_start == j
    &&& forall|k1: int, k2: int|
        #![trigger r[k1], r[k2]]
        0 <= k1 < k2 < r.len() ==> (r[k1].old_start < r[k2].old_start || (r[k1].old_start
            == r[k2].old_start && r[k1].new_start < r[k2].new_start))
}

/// Character-level comparison of two texts.
pub struct DiffUtils;

impl DiffUtils {
    /// Character-level edit script between the two texts, rendered as one
    /// annotated string.
    pub fn calculate_diff(old_text: &str, new_text: &str) -> (r: String)
        ensures
            r@ == render_script(script_of(old_text@, new_text@)),
            old_text@ == new_text@ ==> r@ == new_text@,
    {
        let segs = diff_chars(old_text, new_text);
        let r = render_segments(&segs);
        proof {
            if old_text@ == new_text@ {
                lemma_render_all_equal(segs@);
            }
        }
        r
    }

    /// Character counts of the change between the two texts: inserted,
    /// deleted and unchanged characters, and the total of the changed ones.
    pub fn get_change_statistics(old_text: &str, new_text: &str) -> (r: ChangeStats)
        ensures
            r.insertions + r.unchanged == new_text@.len(),
            r.deletions + r.unchanged == old_text@.len(),
            r.insertions + r.deletions <= usize::MAX ==> r.total_changes == r.insertions
                + r.deletions,
            r.insertions + r.deletions > usize::MAX ==> r.total_changes == usize::MAX,
            old_text@ == new_text@ ==> r.insertions == 0 && r.deletions == 0 && r.unchanged
                == old_text@.len(),
            r.insertions == ins_count(script_of(old_text@, new_text@)),
            r.deletions == del_count(script_of(old_text@, new_text@)),
            r.unchanged == eq_count(script_of(old_text@, new_text@)),
    {
        let _old_len = old_text.unicode_len();
        let _new_len = new_text.unicode_len();
        let segs = diff_chars(old_text, new_text);
        let ghost whole = segs@;
        proof {
            lemma_counts_match_sides(whole);
        }
        let mut insertions: usize = 0;
        let mut deletions: usize = 0;
        let mut unchanged: usize = 0;
        proof {
            assert(whole.subrange(0, 0) =~= Seq::<DiffSegment>::empty());
        }
        let mut i: usize = 0;
        while i < segs.len()
            invariant
                i <= whole.len(),
                segs@ == whole,
                insertions == ins_count(whole.subrange(0, i as int)),
                deletions == del_count(whole.subrange(0, i as int)),
                unchanged == eq_count(whole.subrange(0, i as int)),
                ins_count(whole) + eq_count(whole) == new_side(whole).len(),
                del_count(whole) + eq_count(whole) == old_side(whole).len(),
                new_side(whole).len() <= usize::MAX,
                old_side(whole).len() <= usize::MAX,
            decreases whole.len() - i,
        {
            proof {
                lemma_ins_count_append(whole.subrange(0, i as int), whole.subrange(i as int, whole.len() as int));
                lemma_del_count_append(whole.subrange(0, i as int), whole.subrange(i as int, whole.len() as int));
                lemma_eq_count_append(whole.subrange(0, i as int), whole.subrange(i as int, whole.len() as int));
                assert(whole.subrange(0, i as int) + whole.subrange(i as int, whole.len() as int)
                    =~= whole);
                lemma_ins_count_append(whole.subrange(0, i as int), seq![whole[i as int]]);
                lemma_del_count_append(whole.subrange(0, i as int), seq![whole[i as int]]);
                lemma_eq_count_append(whole.subrange(0, i as int), seq![whole[i as int]]);
                assert(whole.subrange(0, i as int) + seq![whole[i as int]] =~= whole.subrange(
                    0,
                    i + 1,
                ));
                lemma_ins_count_append(seq![whole[i as int]], whole.subrange(i + 1, whole.len() as int));
                lemma_del_count_append(seq![whole[i as int]], whole.subrange(i + 1, whole.len() as int));
                lemma_eq_count_append(seq![whole[i as int]], whole.subrange(i + 1, whole.len() as int));
                assert(seq![whole[i as int]] + whole.subrange(i + 1, whole.len() as int)
                    =~= whole.subrange(i as int, whole.len() as int));
                assert(seq![whole[i as int]].drop_first() =~= Seq::<DiffSegment>::empty());
                reveal_with_fuel(ins_count, 2);
                reveal_with_fuel(del_count, 2);
                reveal_with_fuel(eq_count, 2);
                assert(ins_count(seq![whole[i as int]]) == if whole[i as int].kind is Insert {
                    whole[i as int].text@.len()
                } else {
                    0nat
                });
                assert(del_count(seq![whole[i as int]]) == if whole[i as int].kind is Delete {
                    whole[i as int].text@.len()
                } else {
                    0nat
                });
                assert(eq_count(seq![whole[i as int]]) == if whole[i as int].kind is Equal {
                    whole[i as int].text@.len()
                } else {
                    0nat
                });
            }
            let seg = &segs[i];
            let n = seg.text.as_str().unicode_len();
            match seg.kind {
                DiffKind::Insert => {
                    insertions = insertions + n;
                },
                DiffKind::Delete => {
                    deletions = deletions + n;
                },
                DiffKind::Equal => {
                    unchanged = unchanged + n;
                },
            }
            i = i + 1;
        }
        proof {
            assert(whole.subrange(0, whole.len() as int) =~= whole);
            if old_text@ == new_text@ {
                lemma_all_equal_counts(whole);
            }
        }
        let total_changes: usize = if insertions <= usize::MAX - deletions {
            insertions + deletions
        } else {
            usize::MAX
        };
        let r = ChangeStats { insertions, deletions, unchanged, total_changes };
        r
    }

    /// Report pairs of lines from the two texts, both at least `min_length`
    /// characters long, whose character-level change ratio is below the
    /// near-duplicate threshold.
    pub fn find_similar_chunks(text1: &str, text2: &str, min_length: usize) -> (r: Vec<
        SimilarChunk,
    >)
        ensures
            chunks_exact(r@, text1@, text2@, min_length as nat),
    {
        let ghost t1 = text1@;
        let ghost t2 = text2@;
        let ghost min = min_length as nat;
        let lines1 = split_into_lines(text1);
        let lines2 = split_into_lines(text2);
        let mut r: Vec<SimilarChunk> = Vec::new();
        let mut i: usize = 0;
        while i < lines1.len()
            invariant
                i <= lines1@.len(),
                min == min_length as nat,
                t1 == text1@,
                t2 == text2@,
                lines1@.len() == split_lines(t1).len(),
                forall|k: int| 0 <= k < lines1@.len() ==> lines1@[k]@ == split_lines(t1)[k],
                lines2@.len() == split_lines(t2).len(),
                forall|k: int| 0 <= k < lines2@.len() ==> lines2@[k]@ == split_lines(t2)[k],
                forall|k: int| 0 <= k < r@.len() ==> chunk_ok(#[trigger] r@[k], t1, t2, min),
                forall|k: int| 0 <= k < r@.len() ==> (#[trigger] r@[k]).old_start < i,
                forall|k1: int, k2: int|
                    #![trigger r@[k1], r@[k2]]
                    0 <= k1 < k2 < r@.len() ==> (r@[k1].old_start < r@[k2].old_start || (
                    r@[k1].old_start == r@[k2].old_start && r@[k1].new_start
                        < r@[k2].new_start)),
                forall|ii: int, jj: int|
                    #![trigger split_lines(t1)[ii], split_lines(t2)[jj]]
                    0 <= ii < i && 0 <= jj < split_lines(t2).len() && pair_qualifies(
                        split_lines(t1)[ii],
                        split_lines(t2)[jj],
                        min,
                    ) ==> exists|k: int|
                        0 <= k < r@.len() && (#[trigger] r@[k]).old_start == ii
                            && r@[k].new_start == jj,
            decreases lines1@.len() - i,
        {
            let line1 = &lines1[i];
            let n1 = line1.as_str().unicode_len();
            let mut j: usize = 0;
            while j < lines2.len()
                invariant
                    j <= lines2@.len(),
                    i < lines1@.len(),
                    min == min_length as nat,
                    t1 == text1@,
                    t2 == text2@,
                    lines1@.len() == split_lines(t1).len(),
                    forall|k: int|
                        0 <= k < lines1@.len() ==> lines1@[k]@ == split_lines(t1)[k],
                    lines2@.len() == split_lines(t2).len(),
                    forall|k: int|
                        0 <= k < lines2@.len() ==> lines2@[k]@ == split_lines(t2)[k],
                    line1 == lines1@[i as int],
                    n1 == line1@.len(),
                    forall|k: int| 0 <= k < r@.len() ==> chunk_ok(#[trigger] r@[k], t1, t2, min),
                    forall|k: int|
                        0 <= k < r@.len() ==> ((#[trigger] r@[k]).old_start < i || (
                        r@[k].old_start == i && r@[k].new_start < j)),
                    forall|k1: int, k2: int|
                        #![trigger r@[k1], r@[k2]]
                        0 <= k1 < k2 < r@.len() ==> (r@[k1].old_start < r@[k2].old_start || (
                        r@[k1].old_start == r@[k2].old_start && r@[k1].new_start
                            < r@[k2].new_start)),
                    forall|ii: int, jj: int|
                        #![trigger split_lines(t1)[ii], split_lines(t2)[jj]]
                        0 <= ii < i && 0 <= jj < split_lines(t2).len() && pair_qualifies(
                            split_lines(t1)[ii],
                            split_lines(t2)[jj],
                            min,
                        ) ==> exists|k: int|
                            0 <= k < r@.len() && (#[trigger] r@[k]).old_start == ii
                                && r@[k].new_start == jj,
                    forall|jj: int|
                        #![trigger split_lines(t2)[jj]]
                        0 <= jj < j && pair_qualifies(
                            split_lines(t1)[i as int],
                            split_lines(t2)[jj],
                            min,
                        ) ==> exists|k: int|
                            0 <= k < r@.len() && (#[trigger] r@[k]).old_start == i as int
                                && r@[k].new_start == jj,
                decreases lines2@.len() - j,
            {
                let line2 = &lines2[j];
                let n2 = line2.as_str().unicode_len();
                let ghost l1v = split_lines(t1)[i as int];
                let ghost l2v = split_lines(t2)[j as int];
                proof {
                    assert(l1v == line1@);
                    assert(l2v == lines2@[j as int]@);
                }
                if n1 >= min_length && n2 >= min_length {
                    let stats = DiffUtils::get_change_statistics(
                        line1.as_str(),
                        line2.as_str(),
                    );
                    let changed: u128 = stats.insertions as u128 + stats.deletions as u128;
                    let total: u128 = n1 as u128;
                    proof {
                        assert(changed == changed_between(l1v, l2v));
                    }
                    let qualifies = if total == 0 {
                        true
                    } else {
                        changed * 10 < total * 3
                    };
                    proof {
                        assert(qualifies == pair_qualifies(l1v, l2v, min));
                    }
                    if qualifies {
                        let similarity: u32 = if total == 0 {
                            1000
                        } else if changed >= total {
                            0
                        } else {
                            proof {
                                let a = ((total as int) - (changed as int)) * 1000;
                                vstd::arithmetic::mul::lemma_mul_inequality(
                                    (total as int) - (changed as int),
                                    total as int,
                                    1000,
                                );
                                vstd::arithmetic::div_mod::lemma_multiply_divide_le(
                                    a,
                                    total as int,
                                    1000,
                                );
                            }
                            (((total - changed) * 1000) / total) as u32
                        };
                        let chunk = SimilarChunk {
                            old_text: line1.clone(),
                            new_text: line2.clone(),
                            similarity,
                            old_start: i,
                            new_start: j,
                        };
                        proof {
                            assert(chunk.similarity == sim_permille(
                                changed_between(l1v, l2v),
                                l1v.len(),
                            ));
                            assert(chunk_ok(chunk, t1, t2, min));
                        }
                        let ghost r_old = r@;
                        r.push(chunk);
                        proof {
                            assert(r@ == r_old.push(chunk));
                            assert forall|ii: int, jj: int|
                                #![trigger split_lines(t1)[ii], split_lines(t2)[jj]]
                                0 <= ii < i && 0 <= jj < split_lines(t2).len()
                                    && pair_qualifies(
                                    split_lines(t1)[ii],
                                    split_lines(t2)[jj],
                                    min,
                                ) implies exists|k: int|
                                0 <= k < r@.len() && (#[trigger] r@[k]).old_start == ii
                                    && r@[k].new_start == jj by {
                                let k = choose|k: int|
                                    0 <= k < r_old.len() && (#[trigger] r_old[k]).old_start
                                        == ii && r_old[k].new_start == jj;
                                assert(r@[k].old_start == ii && r@[k].new_start == jj);
                            }
                            assert forall|jj: int|
                                #![trigger split_lines(t2)[jj]]
                                0 <= jj < j + 1 && pair_qualifies(
                                    split_lines(t1)[i as int],
                                    split_lines(t2)[jj],
                                    min,
                                ) implies exists|k: int|
                                0 <= k < r@.len() && (#[trigger] r@[k]).old_start == i as int
                                    && r@[k].new_start == jj by {
                                if jj < j {
                                    let k = choose|k: int|
                                        0 <= k < r_old.len() && (
                                        #[trigger] r_old[k]).old_start == i as int
                                            && r_old[k].new_start == jj;
                                    assert(r@[k].old_start == i as int && r@[k].new_start
                                        == jj);
                                } else {
                                    assert(r@[r@.len() - 1].old_start == i as int
                                        && r@[r@.len() - 1].new_start == j as int);
                                }
                            }
                        }
                    } else {
                        proof {
                            assert(!pair_qualifies(l1v, l2v, min));
                        }
                    }
                } else {
                    proof {
                        assert(!pair_qualifies(l1v, l2v, min));
                    }
                }
                j = j + 1;
            }
            i = i + 1;
        }
        r
    }
}

} // verus!
