use vstd::prelude::*;

use crate::diff::DiffSegment;
use crate::strutil::str_eq;

verus! {

/// Lifecycle state of a novel.
#[derive(Debug, Clone, Copy, PartialEq, Eq, Structural)]
pub enum NovelStatus {
    Draft,
    Writing,
    Completed,
    Abandoned,
}

impl NovelStatus {
    pub fn as_str(&self) -> (r: &str)
        ensures
            self is Draft ==> r@ == "draft"@,
            self is Writing ==> r@ == "writing"@,
            self is Completed ==> r@ == "completed"@,
            self is Abandoned ==> r@ == "abandoned"@,
    {
        match self {
            Self::Draft => "draft",
            Self::Writing => "writing",
            Self::Completed => "completed",
            Self::Abandoned => "abandoned",
        }
    }

    pub fn from_str(s: &str) -> (r: Self)
        ensures
            s@ == "writing"@ ==> r is Writing,
            s@ == "completed"@ ==> r is Completed,
            s@ == "abandoned"@ ==> r is Abandoned,
            s@ != "writing"@ && s@ != "completed"@ && s@ != "abandoned"@ ==> r is Draft,
    {
        proof {
            reveal_strlit("writing");
            reveal_strlit("completed");
            reveal_strlit("abandoned");
            assert("writing"@.len() == 7);
            assert("completed"@.len() == 9);
            assert("abandoned"@.len() == 9);
            assert("completed"@[0] == 'c');
            assert("abandoned"@[0] == 'a');
        }
        if str_eq(s, "writing") {
            Self::Writing
        } else if str_eq(s, "completed") {
            Self::Completed
        } else if str_eq(s, "abandoned") {
            Self::Abandoned
        } else {
            Self::Draft
        }
    }
}

/// Kind tag of a chapter node; purely descriptive, no behavioral difference.
#[derive(Debug, Clone, Copy, PartialEq, Eq, Structural)]
pub enum ChapterType {
    Volume,
    Chapter,
    Scene,
}

impl ChapterType {
    pub fn as_str(&self) -> (r: &str)
        ensures
            self is Volume ==> r@ == "volume"@,
            self is Chapter ==> r@ == "chapter"@,
            self is Scene ==> r@ == "scene"@,
    {
        match self {
            Self::Volume => "volume",
            Self::Chapter => "chapter",
            Self::Scene => "scene",
        }
    }

    pub fn from_str(s: &str) -> (r: Self)
        ensures
            s@ == "volume"@ ==> r is Volume,
            s@ == "scene"@ ==> r is Scene,
            s@ != "volume"@ && s@ != "scene"@ ==> r is Chapter,
    {
        proof {
            reveal_strlit("volume");
            reveal_strlit("scene");
            assert("volume"@.len() == 6);
            assert("scene"@.len() == 5);
        }
        if str_eq(s, "volume") {
            Self::Volume
        } else if str_eq(s, "scene") {
            Self::Scene
        } else {
            Self::Chapter
        }
    }
}

/// Storage discipline of one version record: a `Snapshot` holds the complete
/// chapter text, a `Diff` holds an incremental change description relative to
/// its parent version.
#[derive(Debug, Clone, Copy, PartialEq, Eq, Structural)]
pub enum VersionType {
    Snapshot,
    Diff,
}

impl VersionType {
    pub fn as_str(&self) -> (r: &str)
        ensures
            self is Snapshot ==> r@ == "snapshot"@,
            self is Diff ==> r@ == "diff"@,
    {
        match self {
            Self::Snapshot => "snapshot",
            Self::Diff => "diff",
        }
    }

    pub fn from_str(s: &str) -> (r: Self)
        ensures
            s@ == "snapshot"@ ==> r is Snapshot,
            s@ != "snapshot"@ ==> r is Diff,
    {
        if str_eq(s, "snapshot") {
            Self::Snapshot
        } else {
            Self::Diff
        }
    }
}

/// Ordering key for siblings: keys compare by insertion position first and by
/// creation stamp second, so repeated inserts at one position stay distinct
/// and no renumbering of existing siblings is needed.
#[derive(Debug, Clone, Copy, PartialEq, Eq, Structural)]
pub struct SortKey {
    pub position: u64,
    pub stamp: i64,
}

/// Strict order on sort keys: by position, then by stamp.
pub open spec fn key_lt(a: SortKey, b: SortKey) -> bool {
    a.position < b.position || (a.position == b.position && a.stamp < b.stamp)
}

/// A node of authored content.
#[derive(Debug)]
pub struct Chapter {
    pub id: i64,
    pub novel_id: i64,
    pub parent_id: Option<i64>,
    pub title: String,
    pub content: String,
    pub sort_path: SortKey,
    pub word_count: i32,
    pub created_at: i64,
    pub updated_at: i64,
    pub chapter_type: ChapterType,
    pub is_archived: bool,
}

impl Clone for Chapter {
    fn clone(&self) -> (r: Self)
        ensures
            r == *self,
    {
        Chapter {
            id: self.id,
            novel_id: self.novel_id,
            parent_id: if let Some(p) = self.parent_id {
                Some(p)
            } else {
                None
            },
            title: self.title.clone(),
            content: self.content.clone(),
            sort_path: self.sort_path,
            word_count: self.word_count,
            created_at: self.created_at,
            updated_at: self.updated_at,
            chapter_type: self.chapter_type,
            is_archived: self.is_archived,
        }
    }
}

/// Display order of chapters used when siblings are arranged: ascending sort
/// key, with the chapter id as the tie breaker.
pub open spec fn chap_lt(a: Chapter, b: Chapter) -> bool {
    key_lt(a.sort_path, b.sort_path) || (a.sort_path == b.sort_path && a.id < b.id)
}

/// One point in a chapter's edit history. A `Snapshot` carries the full text
/// in `content` and no `diff_data`; a `Diff` carries an empty `content` and
/// the change description in `diff_data`.
#[derive(Debug)]
pub struct ChapterVersion {
    pub id: i64,
    pub chapter_id: i64,
    pub parent_version_id: Option<i64>,
    pub version_type: VersionType,
    pub content: String,
    pub diff_data: Option<Vec<DiffSegment>>,
    pub word_count: i32,
    pub created_at: i64,
    pub commit_message: String,
    pub is_auto_save: bool,
}

impl Clone for ChapterVersion {
    fn clone(&self) -> (r: Self)
        ensures
            r.id == self.id,
            r.chapter_id == self.chapter_id,
            r.parent_version_id == self.parent_version_id,
            r.version_type == self.version_type,
            r.content == self.content,
            r.word_count == self.word_count,
            r.created_at == self.created_at,
            r.commit_message == self.commit_message,
            r.is_auto_save == self.is_auto_save,
            r.diff_data is Some <==> self.diff_data is Some,
            r.diff_data is Some ==> r.diff_data->Some_0@ == self.diff_data->Some_0@,
    {
        ChapterVersion {
            id: self.id,
            chapter_id: self.chapter_id,
            parent_version_id: if let Some(p) = self.parent_version_id {
                Some(p)
            } else {
                None
            },
            version_type: self.version_type,
            content: self.content.clone(),
            diff_data: if let Some(d) = &self.diff_data {
                Some(crate::diff::clone_segments(d))
            } else {
                None
            },
            word_count: self.word_count,
            created_at: self.created_at,
            commit_message: self.commit_message.clone(),
            is_auto_save: self.is_auto_save,
        }
    }
}

} // verus!
