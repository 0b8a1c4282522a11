//! One hash record: a path together with the comma-joined hex digests of
//! the file at that path, or no digests at all for an empty directory.

use vstd::prelude::*;
use vstd::string::*;

use crate::errors::Error;
use crate::strutil::{last_index_of, lemma_last_index_of, push_char, rfind_char, substring_copy};

verus! {

/// A `(path, digests)` record.  `None` digests mark an empty directory.
pub struct HashData(pub String, pub Option<String>);

/// The mathematical view of a record.
pub ghost struct RecView {
    pub path: Seq<char>,
    pub digests: Option<Seq<char>>,
}

/// The view of an optional digest string.
pub open spec fn opt_view(h: Option<String>) -> Option<Seq<char>> {
    match h {
        Some(s) => Some(s@),
        None => None,
    }
}

/// The view of an executable record.
pub open spec fn rec_view(h: HashData) -> RecView {
    RecView { path: h.0@, digests: opt_view(h.1) }
}

/// The digest part of a record view, as it appears on its data line.
pub open spec fn rec_digests(r: RecView) -> Seq<char> {
    match r.digests {
        Some(s) => s,
        None => Seq::<char>::empty(),
    }
}

/// The data line of a record view, with its terminating newline.
pub open spec fn rline(r: RecView) -> Seq<char> {
    r.path + seq!['|'] + rec_digests(r) + seq!['\n']
}

/// All data lines of a record sequence, concatenated.
pub open spec fn rlines(rs: Seq<RecView>) -> Seq<char>
    decreases rs.len(),
{
    if rs.len() == 0 {
        Seq::<char>::empty()
    } else {
        rlines(rs.drop_last()) + rline(rs.last())
    }
}

/// The digest part of a record, as the characters of its data line.
pub open spec fn digests_view(h: Option<String>) -> Seq<char> {
    match h {
        Some(s) => s@,
        None => Seq::<char>::empty(),
    }
}

/// The manifest data line for a record, without the terminating newline.
pub open spec fn line_of(path: Seq<char>, h: Option<String>) -> Seq<char> {
    path + seq!['|'] + digests_view(h)
}

/// Where a data line splits: at its last `|`.
pub open spec fn split_line(s: Seq<char>) -> Option<(Seq<char>, Seq<char>)> {
    let i = last_index_of(s, '|');
    if i < 0 {
        None
    } else {
        Some((s.subrange(0, i), s.subrange(i + 1, s.len() as int)))
    }
}

impl HashData {
    /// A record with no digests yet.
    pub fn new(path: String) -> (r: HashData)
        ensures
            r.0@ == path@,
            r.1 is None,
    {
        HashData(path, None)
    }

    /// The record's path.
    pub fn path(&self) -> (r: &String)
        ensures
            r@ == self.0@,
    {
        &self.0
    }

    /// Whether this record marks an empty directory.
    pub fn is_empty_dir(&self) -> (r: bool)
        ensures
            r == (self.1 is None),
    {
        self.1.is_none()
    }

    /// Append one more hex digest, comma-separated after any earlier ones.
    pub fn push_hash(&mut self, hash_str: String)
        ensures
            final(self).0 == old(self).0,
            final(self).1 matches Some(h) && h@ == digests_view(old(self).1) + (
            if old(self).1 is Some {
                seq![',']
            } else {
                Seq::<char>::empty()
            }) + hash_str@,
    {
        match &mut self.1 {
            Some(h) => {
                push_char(h, ',');
                h.append(hash_str.as_str());
            },
            None => {
                self.1 = Some(hash_str);
            },
        }
    }

    /// Render the record's data line (no newline).
    pub fn to_line(&self) -> (r: String)
        ensures
            r@ == line_of(self.0@, self.1),
    {
        let mut s = self.0.clone();
        push_char(&mut s, '|');
        match &self.1 {
            Some(h) => {
                s.append(h.as_str());
            },
            None => {},
        }
        proof {
            assert(s@ =~= line_of(self.0@, self.1));
        }
        s
    }

    /// Parse a data line: split on the last `|`; an empty right side is an
    /// empty-directory record, accepted only when the caller opted in.
    pub fn try_from_string(value: String, empty_dirs: bool) -> (r: Result<HashData, Error>)
        ensures
            match r {
                Ok(d) => split_line(value@) matches Some((p, h)) && d.0@ == p && digests_view(d.1)
                    == h && (d.1 is None <==> h.len() == 0) && (d.1 is None ==> empty_dirs),
                Err(e) => match e {
                    Error::FileFormat => split_line(value@) is None,
                    Error::AuditEmptyDir(q) => !empty_dirs && (split_line(value@) matches Some(
                        (p, h),
                    ) && h.len() == 0 && q@ == p),
                    _ => false,
                },
            },
    {
        proof {
            lemma_last_index_of(value@, '|');
        }
        let v = value.as_str();
        let n = v.unicode_len();
        match rfind_char(v, '|') {
            None => Err(Error::FileFormat),
            Some(i) => {
                let path = substring_copy(v, 0, i);
                if i + 1 == n {
                    if empty_dirs {
                        Ok(HashData(path, None))
                    } else {
                        Err(Error::AuditEmptyDir(path))
                    }
                } else {
                    let hash = substring_copy(v, i + 1, n);
                    Ok(HashData(path, Some(hash)))
                }
            },
        }
    }
}

/// The data lines also concatenate from the front.
pub proof fn lemma_rlines_first(rs: Seq<RecView>)
    requires
        rs.len() > 0,
    ensures
        rlines(rs) == rline(rs[0]) + rlines(rs.drop_first()),
    decreases rs.len(),
{
    if rs.len() == 1 {
        assert(rs.drop_last() =~= Seq::<RecView>::empty());
        assert(rs.drop_first() =~= Seq::<RecView>::empty());
        assert(rs.last() == rs[0]);
        assert(rlines(rs) =~= rline(rs[0]) + rlines(rs.drop_first()));
    } else {
        lemma_rlines_first(rs.drop_last());
        assert(rs.drop_last()[0] == rs[0]);
        assert(rs.drop_last().drop_first() =~= rs.drop_first().drop_last());
        assert(rs.drop_first().last() == rs.last());
        assert(rlines(rs) == (rline(rs[0]) + rlines(rs.drop_first().drop_last())) + rline(
            rs.last(),
        ));
        assert(rlines(rs) =~= rline(rs[0]) + rlines(rs.drop_first()));
    }
}

/// Splitting `p + "|" + d` with `d` free of `|` recovers both parts.
pub proof fn lemma_split_line_parts(p: Seq<char>, d: Seq<char>)
    requires
        forall|i: int| 0 <= i < d.len() ==> d[i] != '|',
    ensures
        split_line(p + seq!['|'] + d) matches Some((p2, d2)) && p2 == p && d2 == d,
{
    let s = p + seq!['|'] + d;
    lemma_last_bar_of_line(p, d);
    assert(s.subrange(0, p.len() as int) =~= p);
    assert(s.subrange(p.len() as int + 1, s.len() as int) =~= d);
}

/// In `p + "|" + d` with `d` free of `|`, the last `|` sits right after `p`.
proof fn lemma_last_bar_of_line(p: Seq<char>, d: Seq<char>)
    requires
        forall|i: int| 0 <= i < d.len() ==> d[i] != '|',
    ensures
        last_index_of(p + seq!['|'] + d, '|') == p.len(),
    decreases d.len(),
{
    let s = p + seq!['|'] + d;
    if d.len() == 0 {
        assert(s[s.len() - 1] == '|');
    } else {
        assert(s[s.len() - 1] == d[d.len() - 1]);
        assert(s[s.len() - 1] != '|');
        assert(s.drop_last() =~= p + seq!['|'] + d.drop_last());
        lemma_last_bar_of_line(p, d.drop_last());
    }
}

} // verus!
