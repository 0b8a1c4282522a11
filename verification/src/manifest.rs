//! The manifest text format: the three-line header, the append-only writer
//! with its reserved finish-time padding, and the in-place finish patch.

use vstd::prelude::*;
use vstd::string::*;

use crate::errors::Error;
use crate::hashing::{token_of, HashType};
use crate::records::{rec_view, rline, rlines, HashData, RecView};
use crate::strutil::push_char;

verus! {

/// A run of `n` spaces.
pub open spec fn spaces(n: nat) -> Seq<char> {
    Seq::new(n, |i: int| ' ')
}

/// The algorithm tokens joined with commas, in configuration order.
pub open spec fn algo_tokens(algs: Seq<HashType>) -> Seq<char>
    decreases algs.len(),
{
    if algs.len() == 0 {
        Seq::<char>::empty()
    } else if algs.len() == 1 {
        token_of(algs[0])
    } else {
        token_of(algs[0]) + seq![','] + algo_tokens(algs.drop_first())
    }
}

/// Appending one more algorithm appends a comma and its token.
pub proof fn lemma_algo_tokens_push(algs: Seq<HashType>, a: HashType)
    requires
        algs.len() > 0,
    ensures
        algo_tokens(algs.push(a)) == algo_tokens(algs) + seq![','] + token_of(a),
    decreases algs.len(),
{
    if algs.len() == 1 {
        assert(algs.push(a).drop_first() =~= seq![a]);
        assert(seq![a][0] == a);
        assert(algo_tokens(seq![a]) == token_of(a));
        assert(algs.push(a)[0] == algs[0]);
        assert(algo_tokens(algs.push(a)) =~= token_of(algs[0]) + seq![','] + token_of(a));
        assert(algo_tokens(algs) == token_of(algs[0]));
    } else {
        assert(algs.push(a).drop_first() =~= algs.drop_first().push(a));
        lemma_algo_tokens_push(algs.drop_first(), a);
        assert(algo_tokens(algs.push(a)) =~= algo_tokens(algs) + seq![','] + token_of(a));
    }
}

/// Render the comma-joined algorithm list.
pub fn join_tokens(hash: &Vec<HashType>) -> (r: String)
    ensures
        r@ == algo_tokens(hash@),
{
    let mut s = String::new();
    let mut i: usize = 0;
    while i < hash.len()
        invariant
            i <= hash@.len(),
            s@ == algo_tokens(hash@.subrange(0, i as int)),
        decreases hash@.len() - i,
    {
        if i > 0 {
            push_char(&mut s, ',');
        }
        s.append(hash[i].as_str());
        proof {
            let pre = hash@.subrange(0, i as int);
            let post = hash@.subrange(0, i + 1 as int);
            assert(post =~= pre.push(hash@[i as int]));
            if i > 0 {
                lemma_algo_tokens_push(pre, hash@[i as int]);
            } else {
                assert(algo_tokens(post) == token_of(hash@[0]));
            }
        }
        i += 1;
    }
    proof {
        assert(hash@.subrange(0, hash@.len() as int) =~= hash@);
    }
    s
}

/// Whether a string parses as a date under the manifest reader's rules.
pub uninterp spec fn date_ok(s: Seq<char>) -> bool;

/// Relies on `jiff::civil::Date`'s `FromStr`: whether a token parses as a
/// date (a bare date, or anything containing one, such as an ISO 8601
/// date-time); a function of the characters alone.
#[verifier::external_body]
pub(crate) fn check_date_token(s: &str) -> (r: bool)
    ensures
        r == date_ok(s@),
{
    s.parse::<jiff::civil::Date>().is_ok()
}

/// A well-formed manifest timestamp: the no-clock placeholder, or a
/// date token that begins with a digit and holds no space or newline.
pub open spec fn ts_wf(s: Seq<char>) -> bool {
    s == "[NO DATE]"@ || (date_ok(s) && s.len() > 0 && '0' <= s[0] <= '9' && forall|i: int|
        0 <= i < s.len() ==> #[trigger] s[i] != ' ' && s[i] != '\n')
}

/// Relies on `jiff::Zoned::try_from` (over `std::time::SystemTime::now`),
/// `Zoned::round` and the display of `jiff::civil::DateTime`: the current
/// wall-clock time rounded to whole seconds and printed as an ISO 8601
/// date-time, which jiff's own date parser accepts back.  The rendered
/// text is nonempty and free of spaces and newlines (a pre-CE reading
/// begins with a sign, so no leading digit is promised here).  `None`
/// when the clock cannot be read or lies outside jiff's range.
#[verifier::external_body]
fn clock_datetime() -> (r: Option<String>)
    ensures
        r matches Some(s) ==> date_ok(s@) && s@.len() > 0 && forall|i: int|
            0 <= i < s@.len() ==> #[trigger] s@[i] != ' ' && s@[i] != '\n',
{
    jiff::Zoned::try_from(std::time::SystemTime::now())
        .and_then(|z| z.round(jiff::Unit::Second))
        .map(|z| z.datetime().to_string())
        .ok()
}

/// The timestamp written into a manifest header: the clock's rendering
/// when the reader will take it back, else the placeholder.
pub(crate) fn now_timestamp() -> (r: String)
    ensures
        ts_wf(r@),
{
    match clock_datetime() {
        Some(s) => {
            let c = s.as_str().get_char(0);
            if '0' <= c && c <= '9' {
                s
            } else {
                String::from_str("[NO DATE]")
            }
        },
        None => String::from_str("[NO DATE]"),
    }
}

/// The spec-level view of a manifest header.
pub ghost struct HdrView {
    pub version: Seq<char>,
    pub algs: Seq<HashType>,
    pub start: Seq<char>,
    pub fin: Seq<char>,
}

/// Everything in the header before the finish timestamp.
pub open spec fn hdr_prefix(h: HdrView) -> Seq<char> {
    "version "@ + h.version + seq!['\n'] + "algo "@ + algo_tokens(h.algs) + seq!['\n']
        + "time_start "@ + h.start + " - time_finish "@
}

/// The full three-line header.
pub open spec fn header_full(h: HdrView) -> Seq<char> {
    hdr_prefix(h) + h.fin + seq!['\n']
}

/// The full manifest: header then one line per record.
pub open spec fn manifest_render(h: HdrView, rs: Seq<RecView>) -> Seq<char> {
    header_full(h) + rlines(rs)
}

/// The in-memory image of the manifest being written: the text so far,
/// the location of the reserved finish-time padding, and the ghost header
/// and records it was built from.
pub struct OutFile {
    pub content: String,
    pub pad_off: usize,
    pub pad_len: usize,
    pub hdr: Ghost<HdrView>,
    pub recs: Ghost<Seq<RecView>>,
}

impl OutFile {
    /// The writer's invariant: the text is exactly the render of its header
    /// and records, and the padding location marks the finish timestamp.
    pub open spec fn wf(&self) -> bool {
        &&& self.content@ == manifest_render(self.hdr@, self.recs@)
        &&& self.pad_off == hdr_prefix(self.hdr@).len()
        &&& self.pad_len == self.hdr@.fin.len()
        &&& self.hdr@.fin.len() == self.hdr@.start.len()
    }

    /// Open a manifest: render the header with the given start timestamp
    /// and reserve an equal-width run of spaces for the finish timestamp.
    pub fn new(version: &str, hash: &Vec<HashType>, ts: &str) -> (r: OutFile)
        ensures
            r.wf(),
            r.hdr@ == (HdrView {
                version: version@,
                algs: hash@,
                start: ts@,
                fin: spaces(ts@.len()),
            }),
            r.recs@ == Seq::<RecView>::empty(),
    {
        let ghost hdr = HdrView {
            version: version@,
            algs: hash@,
            start: ts@,
            fin: spaces(ts@.len()),
        };
        let mut s = String::from_str("version ");
        s.append(version);
        push_char(&mut s, '\n');
        s.append("algo ");
        let toks = join_tokens(hash);
        s.append(toks.as_str());
        push_char(&mut s, '\n');
        s.append("time_start ");
        s.append(ts);
        s.append(" - time_finish ");
        proof {
            assert(s@ =~= hdr_prefix(hdr));
        }
        let pad_off = s.unicode_len();
        let pad_len = ts.unicode_len();
        let mut i: usize = 0;
        while i < pad_len
            invariant
                i <= pad_len,
                s@ == hdr_prefix(hdr) + spaces(i as nat),
            decreases pad_len - i,
        {
            push_char(&mut s, ' ');
            i += 1;
            proof {
                assert(s@ =~= hdr_prefix(hdr) + spaces(i as nat));
            }
        }
        push_char(&mut s, '\n');
        let r = OutFile {
            content: s,
            pad_off,
            pad_len,
            hdr: Ghost(hdr),
            recs: Ghost(Seq::<RecView>::empty()),
        };
        proof {
            assert(r.content@ =~= manifest_render(hdr, Seq::<RecView>::empty()));
        }
        r
    }

    /// Append one record's data line.
    pub fn handle(&mut self, hash_data: HashData) -> (r: Result<(), Error>)
        requires
            old(self).wf(),
        ensures
            final(self).wf(),
            r is Ok,
            final(self).hdr == old(self).hdr,
            final(self).pad_off == old(self).pad_off,
            final(self).pad_len == old(self).pad_len,
            final(self).recs@ == old(self).recs@.push(rec_view(hash_data)),
            final(self).content@ == old(self).content@ + rline(rec_view(hash_data)),
    {
        let line = hash_data.to_line();
        self.content.append(line.as_str());
        push_char(&mut self.content, '\n');
        proof {
            self.recs@ = self.recs@.push(rec_view(hash_data));
            assert(self.recs@.drop_last() =~= old(self).recs@);
            assert(self.content@ =~= manifest_render(self.hdr@, self.recs@));
        }
        Ok(())
    }

    /// Patch the finish timestamp into the reserved padding.  Everything
    /// outside the padding, in particular every data line, is unchanged.
    /// A timestamp of a different width than the padding is refused.
    pub fn finish(&mut self, ts: &str) -> (r: Result<(), Error>)
        requires
            old(self).wf(),
        ensures
            match r {
                Ok(()) => {
                    &&& ts@.len() == old(self).pad_len
                    &&& final(self).wf()
                    &&& final(self).hdr@ == (HdrView { fin: ts@, ..old(self).hdr@ })
                    &&& final(self).recs == old(self).recs
                    &&& final(self).pad_off == old(self).pad_off
                    &&& final(self).pad_len == old(self).pad_len
                    &&& final(self).content@.len() == old(self).content@.len()
                    &&& final(self).content@.subrange(
                        old(self).pad_off as int,
                        old(self).pad_off + old(self).pad_len,
                    ) == ts@
                    &&& forall|i: int|
                        0 <= i < old(self).content@.len() && !(old(self).pad_off <= i < old(
                            self,
                        ).pad_off + old(self).pad_len) ==> final(self).content@[i] == old(
                            self,
                        ).content@[i]
                },
                Err(e) => {
                    &&& e matches Error::OutputFinish(_)
                    &&& ts@.len() != old(self).pad_len
                    &&& *final(self) == *old(self)
                },
            },
    {
        proof {
            assert(self.content@.len() == hdr_prefix(self.hdr@).len() + self.hdr@.fin.len() + 1
                + rlines(self.recs@).len());
        }
        if ts.unicode_len() != self.pad_len {
            return Err(
                Error::OutputFinish(
                    String::from_str("the finish timestamp does not fit the reserved padding"),
                ),
            );
        }
        let n = self.content.as_str().unicode_len();
        let pre = crate::strutil::substring_copy(self.content.as_str(), 0, self.pad_off);
        let post = crate::strutil::substring_copy(
            self.content.as_str(),
            self.pad_off + self.pad_len,
            n,
        );
        let mut s = pre;
        s.append(ts);
        s.append(post.as_str());
        proof {
            let h = self.hdr@;
            let newh = HdrView { fin: ts@, ..h };
            assert(self.content@.subrange(0, self.pad_off as int) =~= hdr_prefix(h));
            assert(self.content@.subrange(
                self.pad_off + self.pad_len,
                self.content@.len() as int,
            ) =~= seq!['\n'] + rlines(self.recs@));
            assert(s@ =~= manifest_render(newh, self.recs@));
            assert(hdr_prefix(newh) =~= hdr_prefix(h));
        }
        self.content = s;
        proof {
            self.hdr@ = HdrView { fin: ts@, ..self.hdr@ };
        }
        proof {
            assert(self.content@.subrange(
                self.pad_off as int,
                self.pad_off + self.pad_len,
            ) =~= ts@);
        }
        Ok(())
    }
}

} // verus!
