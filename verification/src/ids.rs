//! Content identities and tree-entry kinds.

use vstd::prelude::*;

verus! {

/// An opaque, content-derived identifier of an immutable object
/// (blob, tree or commit). Two objects with equal identity have
/// identical content. Compared purely by value.
#[derive(Debug)]
pub struct Id {
    pub bytes: Vec<u8>,
}

impl Id {
    /// The mathematical value of an identity: its byte sequence.
    pub open spec fn view(&self) -> Seq<u8> {
        self.bytes@
    }

    /// Value equality of two identities.
    pub fn eq_id(&self, other: &Id) -> (r: bool)
        ensures
            r == (self@ == other@),
    {
        if self.bytes.len() != other.bytes.len() {
            assert(self@ != other@);
            return false;
        }
        let n = self.bytes.len();
        let mut i: usize = 0;
        while i < n
            invariant
                n == self.bytes.len(),
                n == other.bytes.len(),
                i <= n,
                forall|j: int| 0 <= j < i ==> self.bytes[j] == other.bytes[j],
            decreases n - i,
        {
            if self.bytes[i] != other.bytes[i] {
                assert(self@[i as int] != other@[i as int]);
                return false;
            }
            i += 1;
        }
        assert(self@ =~= other@);
        true
    }

    /// An identity owns its bytes; cloning copies them.
    pub fn duplicate(&self) -> (r: Id)
        ensures
            r@ == self@,
    {
        let mut bytes: Vec<u8> = Vec::new();
        let n = self.bytes.len();
        let mut i: usize = 0;
        while i < n
            invariant
                n == self.bytes.len(),
                i <= n,
                bytes@ == self.bytes@.subrange(0, i as int),
            decreases n - i,
        {
            bytes.push(self.bytes[i]);
            assert(bytes@ =~= self.bytes@.subrange(0, i as int + 1));
            i += 1;
        }
        assert(bytes@ =~= self.bytes@);
        Id { bytes }
    }
}

/// The kind of an entry found in a tree snapshot.
#[derive(Clone, Copy, Debug, PartialEq, Eq, Structural)]
pub enum EntryKind {
    /// A sub-directory snapshot.
    Tree,
    /// A plain file's content.
    Blob,
    /// An executable file's content.
    BlobExecutable,
    /// A symbolic link (its content is the target path).
    Symlink,
    /// A submodule reference to a commit in another repository.
    Commit,
}

impl EntryKind {
    /// Kinds whose content is a file blob.
    pub open spec fn is_blob_kind(self) -> bool {
        self is Blob || self is BlobExecutable || self is Symlink
    }

    /// Kinds whose content contributes a line count: plain and
    /// executable file blobs. Symlink targets and submodule
    /// references never contribute.
    pub open spec fn is_metric_bearing(self) -> bool {
        self is Blob || self is BlobExecutable
    }

    /// Executable test for `is_blob_kind`.
    pub fn blob_kind(&self) -> (r: bool)
        ensures
            r == self.is_blob_kind(),
    {
        match self {
            EntryKind::Blob => true,
            EntryKind::BlobExecutable => true,
            EntryKind::Symlink => true,
            _ => false,
        }
    }

    /// Executable test for `is_metric_bearing`.
    pub fn metric_bearing(&self) -> (r: bool)
        ensures
            r == self.is_metric_bearing(),
    {
        match self {
            EntryKind::Blob => true,
            EntryKind::BlobExecutable => true,
            _ => false,
        }
    }
}

} // verus!
