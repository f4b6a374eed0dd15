//! The filesystem face of a node: the data a resolved directory entry shows
//! — its path and whether it is a directory — and the label logic over it.
//! Resolving paths and enumerating real directories is I/O and stays with
//! the program around the library, which feeds plain values in.

use crate::HasChildren;
use vstd::prelude::*;

verus! {

/// The part of a path after its last separator; the path itself if it has
/// none.
pub open spec fn file_name_of(p: Seq<char>) -> Seq<char>
    decreases p.len(),
{
    if p.len() == 0 {
        p
    } else if p[p.len() - 1] == '/' {
        Seq::<char>::empty()
    } else {
        file_name_of(p.drop_last()).push(p.last())
    }
}

/// The label a filesystem node renders: its file name, with a trailing
/// separator added for a directory.
pub open spec fn fs_label(path: Seq<char>, is_dir: bool) -> Seq<char> {
    if is_dir {
        file_name_of(path).push('/')
    } else {
        file_name_of(path)
    }
}

/// The full form of the label: the whole path instead of the file name.
pub open spec fn fs_full_label(path: Seq<char>, is_dir: bool) -> Seq<char> {
    if is_dir {
        path.push('/')
    } else {
        path
    }
}

proof fn lemma_file_name_no_sep(p: Seq<char>)
    requires
        forall|k: int| 0 <= k < p.len() ==> p[k] != '/',
    ensures
        file_name_of(p) == p,
    decreases p.len(),
{
    if p.len() > 0 {
        assert forall|k: int| 0 <= k < p.drop_last().len() implies p.drop_last()[k] != '/' by {
            assert(p.drop_last()[k] == p[k]);
        }
        lemma_file_name_no_sep(p.drop_last());
        assert(file_name_of(p.drop_last()).push(p.last()) =~= p);
    }
}

proof fn lemma_file_name_after_sep(p: Seq<char>, j: int)
    requires
        0 <= j < p.len(),
        p[j] == '/',
        forall|k: int| j < k < p.len() ==> p[k] != '/',
    ensures
        file_name_of(p) == p.subrange(j + 1, p.len() as int),
    decreases p.len(),
{
    if j == p.len() - 1 {
        assert(file_name_of(p) =~= p.subrange(j + 1, p.len() as int));
    } else {
        assert(p.drop_last()[j] == p[j]);
        assert forall|k: int| j < k < p.drop_last().len() implies p.drop_last()[k] != '/' by {
            assert(p.drop_last()[k] == p[k]);
        }
        lemma_file_name_after_sep(p.drop_last(), j);
        assert(p.last() != '/');
        assert(file_name_of(p.drop_last()).push(p.last()) =~= p.subrange(j + 1, p.len() as int));
    }
}

/// A filesystem entry as the library sees it: its resolved path and whether
/// it is a directory.
#[derive(PartialEq, PartialOrd)]
pub struct FileSystemNode {
    path: String,
    is_dir: bool,
}

impl FileSystemNode {
    /// The characters of the resolved path.
    pub closed spec fn path_spec(&self) -> Seq<char> {
        self.path@
    }

    /// Whether the entry is a directory.
    pub closed spec fn is_dir_spec(&self) -> bool {
        self.is_dir
    }

    /// Builds a node over an already resolved path.
    pub fn new(path: String, is_dir: bool) -> (r: Self)
        ensures
            r.path_spec() == path@,
            r.is_dir_spec() == is_dir,
    {
        Self { path, is_dir }
    }

    /// The resolved path this node stands for.
    pub fn path(&self) -> (r: &str)
        ensures
            r@ == self.path_spec(),
    {
        self.path.as_str()
    }

    /// Whether the entry is a directory.
    pub fn is_dir(&self) -> (r: bool)
        ensures
            r == self.is_dir_spec(),
    {
        self.is_dir
    }

    /// Whether the entry is anything but a directory.
    pub fn is_file(&self) -> (r: bool)
        ensures
            r == !self.is_dir_spec(),
    {
        !self.is_dir
    }

    /// Whether the entry may have children: a directory might — even one
    /// that later fails to enumerate — and anything else cannot.
    pub fn has_nodes(&self) -> (r: HasChildren)
        ensures
            r == (if self.is_dir_spec() {
                HasChildren::Maybe
            } else {
                HasChildren::False
            }),
    {
        if self.is_dir {
            HasChildren::Maybe
        } else {
            HasChildren::False
        }
    }

    /// The file name: what follows the last separator of the path.
    fn file_name(&self) -> (r: String)
        ensures
            r@ == file_name_of(self.path@),
    {
        let s = self.path.as_str();
        let len = s.unicode_len();
        let mut start: usize = 0;
        let mut i: usize = 0;
        while i < len
            invariant
                i <= len,
                start <= i,
                len == s@.len(),
                s@ == self.path@,
                forall|k: int| start <= k < i ==> s@[k] != '/',
                start == 0 || s@[start - 1] == '/',
            decreases len - i,
        {
            if s.get_char(i) == '/' {
                start = i + 1;
            }
            i += 1;
        }
        let sub = s.substring_char(start, len);
        proof {
            if start == 0 {
                lemma_file_name_no_sep(s@);
                assert(sub@ =~= s@);
            } else {
                lemma_file_name_after_sep(s@, start - 1);
            }
        }
        String::from_str(sub)
    }

    /// Renders the node's label: its file name, "/" appended for a
    /// directory.
    pub fn render_label(&self) -> (r: String)
        ensures
            r@ == fs_label(self.path_spec(), self.is_dir_spec()),
    {
        let name = self.file_name();
        if self.is_dir {
            let r = name.concat("/");
            proof {
                reveal_strlit("/");
                assert(r@ =~= file_name_of(self.path@).push('/'));
            }
            r
        } else {
            name
        }
    }

    /// Renders the full form of the label: the whole path, "/" appended for
    /// a directory.
    pub fn full_label(&self) -> (r: String)
        ensures
            r@ == fs_full_label(self.path_spec(), self.is_dir_spec()),
    {
        if self.is_dir {
            let r = self.path.clone().concat("/");
            proof {
                reveal_strlit("/");
                assert(r@ =~= self.path@.push('/'));
            }
            r
        } else {
            self.path.clone()
        }
    }
}

} // verus!
