//! The audit side: parsing the reference manifest and cross-checking the
//! live stream of hash records against it.

use vstd::prelude::*;
use vstd::string::*;

use crate::cancel::{cancel, is_canceled, CancelFlag};
use crate::errors::Error;
use crate::hashing::{invalid_hash_msg, spec_parse_token, HashType};
use crate::manifest::date_ok;
use crate::records::{rec_view, split_line, HashData, RecView};
use crate::strutil::{
    find_char_from, first_index_of, last_index_of, lemma_first_index_of, lemma_last_index_of,
    push_char, rfind_char, str_eq, substring_copy,
};

verus! {

// ---------------------------------------------------------------------------
// Header parsing
// ---------------------------------------------------------------------------
/// The first line must be `version <token>`: one space, with the version
/// token after the last space.
pub open spec fn version_line_ok(s: Seq<char>) -> bool {
    let i = last_index_of(s, ' ');
    i >= 0 && s.subrange(0, i) == "version"@
}

/// The version token of a well-formed first line.
pub open spec fn version_of(s: Seq<char>) -> Seq<char> {
    s.subrange(last_index_of(s, ' ') + 1, s.len() as int)
}

/// The second line must start `algo `; the rest is the token list.
pub open spec fn algo_line_ok(s: Seq<char>) -> bool {
    let j = first_index_of(s, ' ');
    j >= 0 && s.subrange(0, j) == "algo"@
}

/// The token-list part of the second line.
pub open spec fn algo_part(s: Seq<char>) -> Seq<char> {
    s.subrange(first_index_of(s, ' ') + 1, s.len() as int)
}

/// Split on every comma; a string without commas is one piece.
pub open spec fn split_commas(s: Seq<char>) -> Seq<Seq<char>>
    decreases s.len(),
    via split_commas_dec
{
    let i = first_index_of(s, ',');
    if i < 0 {
        seq![s]
    } else {
        seq![s.subrange(0, i)] + split_commas(s.subrange(i + 1, s.len() as int))
    }
}

#[via_fn]
proof fn split_commas_dec(s: Seq<char>) {
    lemma_first_index_of(s, ',');
}

/// The algorithms the pieces name, or `None` at the first unknown piece.
pub open spec fn parse_pieces(ps: Seq<Seq<char>>) -> Option<Seq<HashType>>
    decreases ps.len(),
{
    if ps.len() == 0 {
        Some(Seq::<HashType>::empty())
    } else {
        match spec_parse_token(ps[0]) {
            None => None,
            Some(t) => match parse_pieces(ps.drop_first()) {
                None => None,
                Some(r) => Some(seq![t] + r),
            },
        }
    }
}

/// The first piece that names no algorithm, or -1.
pub open spec fn first_bad_piece(ps: Seq<Seq<char>>) -> int
    decreases ps.len(),
{
    if ps.len() == 0 {
        -1
    } else if spec_parse_token(ps[0]) is None {
        0
    } else if first_bad_piece(ps.drop_first()) < 0 {
        -1
    } else {
        1 + first_bad_piece(ps.drop_first())
    }
}

pub proof fn lemma_parse_pieces_bad(ps: Seq<Seq<char>>)
    ensures
        parse_pieces(ps) is None <==> first_bad_piece(ps) >= 0,
        first_bad_piece(ps) >= 0 ==> first_bad_piece(ps) < ps.len() && spec_parse_token(
            ps[first_bad_piece(ps)],
        ) is None,
    decreases ps.len(),
{
    if ps.len() > 0 {
        lemma_parse_pieces_bad(ps.drop_first());
    }
}

/// Parsing a concatenation of piece lists: the results concatenate, and a
/// failure in the second list is offset by the first list's length.
pub proof fn lemma_parse_pieces_concat(a: Seq<Seq<char>>, b: Seq<Seq<char>>)
    requires
        parse_pieces(a) is Some,
    ensures
        parse_pieces(b) is Some ==> parse_pieces(a + b) == Some(
            parse_pieces(a).unwrap() + parse_pieces(b).unwrap(),
        ),
        parse_pieces(b) is None ==> parse_pieces(a + b) is None && first_bad_piece(a + b)
            == a.len() + first_bad_piece(b),
    decreases a.len(),
{
    if parse_pieces(b) is None {
        lemma_parse_pieces_bad(b);
    }
    if a.len() == 0 {
        assert(a + b =~= b);
        if parse_pieces(b) is Some {
            assert(parse_pieces(a).unwrap() + parse_pieces(b).unwrap() =~= parse_pieces(
                b,
            ).unwrap());
        }
    } else {
        assert((a + b)[0] == a[0]);
        assert((a + b).drop_first() =~= a.drop_first() + b);
        lemma_parse_pieces_concat(a.drop_first(), b);
        if parse_pieces(b) is Some {
            assert(seq![spec_parse_token(a[0]).unwrap()] + (parse_pieces(a.drop_first()).unwrap()
                + parse_pieces(b).unwrap()) =~= parse_pieces(a).unwrap() + parse_pieces(
                b,
            ).unwrap());
        }
    }
}

/// Whether a `" - "` separator sits at position `i`.
pub open spec fn sep_at(s: Seq<char>, i: int) -> bool {
    &&& 0 <= i
    &&& i + 3 <= s.len()
    &&& s[i] == ' '
    &&& s[i + 1] == '-'
    &&& s[i + 2] == ' '
}

/// The position of the first `" - "` separator, or -1.
pub open spec fn first_sep(s: Seq<char>) -> int
    decreases s.len(),
{
    if s.len() < 3 {
        -1
    } else if sep_at(s, 0) {
        0
    } else if first_sep(s.drop_first()) < 0 {
        -1
    } else {
        1 + first_sep(s.drop_first())
    }
}

pub proof fn lemma_first_sep(s: Seq<char>)
    ensures
        first_sep(s) >= 0 ==> sep_at(s, first_sep(s)) && forall|j: int|
            0 <= j < first_sep(s) ==> !sep_at(s, j),
        first_sep(s) == -1 ==> forall|j: int| 0 <= j ==> !sep_at(s, j),
    decreases s.len(),
{
    if s.len() >= 3 && !sep_at(s, 0) {
        lemma_first_sep(s.drop_first());
        assert forall|j: int| 0 <= j implies (sep_at(s.drop_first(), j - 1) == sep_at(s, j) || j
            == 0) by {
            if j > 0 {
                assert(s.drop_first().len() == s.len() - 1);
                if sep_at(s, j) {
                    assert(s.drop_first()[j - 1] == s[j]);
                    assert(s.drop_first()[j] == s[j + 1]);
                    assert(s.drop_first()[j + 1] == s[j + 2]);
                    assert(sep_at(s.drop_first(), j - 1));
                }
                if sep_at(s.drop_first(), j - 1) {
                    assert(s.drop_first()[j - 1] == s[j]);
                    assert(s.drop_first()[j] == s[j + 1]);
                    assert(s.drop_first()[j + 1] == s[j + 2]);
                    assert(sep_at(s, j));
                }
            }
        }
    } else if s.len() < 3 {
        assert forall|j: int| 0 <= j implies !sep_at(s, j) by {}
    }
}

/// A position with a separator and none before it is the first separator.
pub proof fn lemma_first_sep_unique(s: Seq<char>, k: int)
    requires
        sep_at(s, k),
        forall|j: int| 0 <= j < k ==> !sep_at(s, j),
    ensures
        first_sep(s) == k,
{
    lemma_first_sep(s);
    let l = first_sep(s);
    if l == -1 {
        assert(!sep_at(s, k));
    } else if l < k {
        assert(!sep_at(s, l));
    } else if l > k {
        assert(!sep_at(s, k));
    }
}

/// A timestamp token: the no-clock placeholder or a parseable date.
pub open spec fn time_tok_ok(t: Seq<char>) -> bool {
    t == "[NO DATE]"@ || date_ok(t)
}

/// One half of the third line: the keyword, a space, a timestamp token.
pub open spec fn time_part_ok(part: Seq<char>, kw: Seq<char>) -> bool {
    let j = first_index_of(part, ' ');
    j >= 0 && part.subrange(0, j) == kw && time_tok_ok(part.subrange(j + 1, part.len() as int))
}

/// The third line: `time_start <t> - time_finish <t>`.
pub open spec fn time_line_ok(s: Seq<char>) -> bool {
    let i = first_sep(s);
    i >= 0 && time_part_ok(s.subrange(0, i), "time_start"@) && time_part_ok(
        s.subrange(i + 3, s.len() as int),
        "time_finish"@,
    )
}

/// The raw start-timestamp token of a well-formed third line.
pub open spec fn time_start_of(s: Seq<char>) -> Seq<char> {
    let i = first_sep(s);
    let part = s.subrange(0, i);
    part.subrange(first_index_of(part, ' ') + 1, part.len() as int)
}

/// The raw finish-timestamp token of a well-formed third line.
pub open spec fn time_finish_of(s: Seq<char>) -> Seq<char> {
    let i = first_sep(s);
    let part = s.subrange(i + 3, s.len() as int);
    part.subrange(first_index_of(part, ' ') + 1, part.len() as int)
}

/// The deep view of the manifest's lines.
pub open spec fn lines_view(lines: Seq<String>) -> Seq<Seq<char>> {
    lines.map(|i: int, s: String| s@)
}

/// A text's lines: split at every newline, with no final empty piece when
/// the text ends in a newline.
pub open spec fn split_lines(s: Seq<char>) -> Seq<Seq<char>>
    decreases s.len(),
    via split_lines_dec
{
    if s.len() == 0 {
        Seq::<Seq<char>>::empty()
    } else {
        let i = first_index_of(s, '\n');
        if i < 0 {
            seq![s]
        } else {
            seq![s.subrange(0, i)] + split_lines(s.subrange(i + 1, s.len() as int))
        }
    }
}

#[via_fn]
proof fn split_lines_dec(s: Seq<char>) {
    lemma_first_index_of(s, '\n');
}

/// Peeling one newline-terminated line off the front.
pub proof fn lemma_split_lines_block(l: Seq<char>, rest: Seq<char>)
    requires
        forall|i: int| 0 <= i < l.len() ==> l[i] != '\n',
    ensures
        split_lines(l + seq!['\n'] + rest) == seq![l] + split_lines(rest),
{
    let s = l + seq!['\n'] + rest;
    assert(s[l.len() as int] == '\n');
    crate::strutil::lemma_first_index_unique(s, '\n', l.len() as int);
    assert(s.subrange(0, l.len() as int) =~= l);
    assert(s.subrange(l.len() as int + 1, s.len() as int) =~= rest);
    assert(split_lines(s) =~= seq![l] + split_lines(rest));
}

/// Split a text into its lines.
#[verifier::loop_isolation(false)]
pub fn split_into_lines(s: &str) -> (r: Vec<String>)
    ensures
        lines_view(r@) == split_lines(s@),
{
    let mut r: Vec<String> = Vec::new();
    let n = s.unicode_len();
    let mut start: usize = 0;
    proof {
        assert(s@.subrange(0, n as int) =~= s@);
        assert(lines_view(r@) =~= Seq::<Seq<char>>::empty());
        assert(Seq::<Seq<char>>::empty() + split_lines(s@) =~= split_lines(s@));
    }
    while start < n
        invariant
            0 <= start <= n,
            n == s@.len(),
            split_lines(s@) == lines_view(r@) + split_lines(s@.subrange(start as int, n as int)),
        decreases n - start,
    {
        let ghost rest = s@.subrange(start as int, n as int);
        let ghost lv0 = lines_view(r@);
        proof {
            lemma_first_index_of(rest, '\n');
        }
        let line_end = match find_char_from(s, '\n', start) {
            Some(i) => i,
            None => n,
        };
        proof {
            let fi = first_index_of(rest, '\n');
            if line_end < n {
                assert(rest[line_end - start] == '\n');
                assert forall|j: int| 0 <= j < line_end - start implies rest[j] != '\n' by {
                    assert(rest[j] == s@[start + j]);
                }
                crate::strutil::lemma_first_index_unique(rest, '\n', line_end - start);
            } else {
                assert forall|j: int| 0 <= j < rest.len() implies rest[j] != '\n' by {
                    assert(rest[j] == s@[start + j]);
                }
                assert(fi == -1);
            }
        }
        let piece = substring_copy(s, start, line_end);
        r.push(piece);
        proof {
            assert(lines_view(r@) =~= lv0.push(piece@));
        }
        if line_end == n {
            proof {
                assert(rest =~= piece@);
                assert(split_lines(rest) =~= seq![piece@]);
                assert(lv0 + seq![piece@] =~= lines_view(r@));
                assert(lines_view(r@) + split_lines(s@.subrange(n as int, n as int)) =~=
                    lines_view(r@));
            }
            return r;
        }
        start = line_end + 1;
        proof {
            let rest2 = s@.subrange(start as int, n as int);
            let fi = first_index_of(rest, '\n');
            assert(rest.subrange(0, fi) =~= piece@);
            assert(rest.subrange(fi + 1, rest.len() as int) =~= rest2);
            assert(split_lines(rest) == seq![piece@] + split_lines(rest2));
            assert(lv0 + (seq![piece@] + split_lines(rest2)) =~= lines_view(r@) + split_lines(
                rest2,
            ));
        }
    }
    proof {
        assert(s@.subrange(start as int, n as int).len() == 0);
        assert(lines_view(r@) + split_lines(s@.subrange(start as int, n as int)) =~= lines_view(
            r@,
        ));
    }
    r
}

/// Whether the three header lines are well-formed and name a readable
/// algorithm list.
pub open spec fn header_ok(ls: Seq<Seq<char>>) -> bool {
    &&& ls.len() >= 3
    &&& version_line_ok(ls[0])
    &&& algo_line_ok(ls[1])
    &&& parse_pieces(split_commas(algo_part(ls[1]))) is Some
    &&& time_line_ok(ls[2])
}

/// The algorithm list of a well-formed header.
pub open spec fn header_algs(ls: Seq<Seq<char>>) -> Seq<HashType>
    recommends
        header_ok(ls),
{
    parse_pieces(split_commas(algo_part(ls[1]))).unwrap()
}

/// Find the first `" - "` separator of `s`.
fn find_sep(s: &str) -> (r: Option<usize>)
    ensures
        match r {
            Some(i) => i == first_sep(s@),
            None => first_sep(s@) == -1,
        },
{
    proof {
        lemma_first_sep(s@);
    }
    let n = s.unicode_len();
    if n < 3 {
        proof {
            if first_sep(s@) >= 0 {
                assert(sep_at(s@, first_sep(s@)));
            }
        }
        return None;
    }
    let mut i: usize = 0;
    while i <= n - 3
        invariant
            n == s@.len(),
            n >= 3,
            0 <= i <= n,
            forall|j: int| 0 <= j < i ==> !sep_at(s@, j),
        decreases n - i,
    {
        if s.get_char(i) == ' ' && s.get_char(i + 1) == '-' && s.get_char(i + 2) == ' ' {
            proof {
                lemma_first_sep(s@);
                assert(sep_at(s@, i as int));
                let f = first_sep(s@);
                if f > i {
                    assert(!sep_at(s@, i as int));
                } else if f < i && f >= 0 {
                    assert(!sep_at(s@, f));
                } else if f == -1 {
                    assert(!sep_at(s@, i as int));
                }
            }
            return Some(i);
        }
        i += 1;
    }
    proof {
        lemma_first_sep(s@);
        if first_sep(s@) >= 0 {
            assert(sep_at(s@, first_sep(s@)));
        }
    }
    None
}

/// Parse the comma-separated token list into algorithms.
#[verifier::loop_isolation(false)]
fn parse_algo_tokens(s: &str) -> (r: Result<Vec<HashType>, Error>)
    ensures
        match r {
            Ok(v) => parse_pieces(split_commas(s@)) == Some(v@),
            Err(e) => {
                &&& parse_pieces(split_commas(s@)) is None
                &&& e matches Error::InvalidHash(m) && m@ == invalid_hash_msg(
                    split_commas(s@)[first_bad_piece(split_commas(s@))],
                )
            },
        },
{
    let mut v: Vec<HashType> = Vec::new();
    let n = s.unicode_len();
    let mut start: usize = 0;
    let ghost mut done: Seq<Seq<char>> = Seq::<Seq<char>>::empty();
    proof {
        assert(s@.subrange(0, n as int) =~= s@);
        assert(done + split_commas(s@) =~= split_commas(s@));
        assert(v@ =~= Seq::<HashType>::empty());
    }
    loop
        invariant
            0 <= start <= n,
            split_commas(s@) == done + split_commas(s@.subrange(start as int, n as int)),
            parse_pieces(done) == Some(v@),
        decreases n - start,
    {
        let ghost done0 = done;
        let ghost v0 = v@;
        let ghost rest = s@.subrange(start as int, n as int);
        proof {
            lemma_first_index_of(rest, ',');
        }
        let piece_end = match find_char_from(s, ',', start) {
            Some(i) => i,
            None => n,
        };
        proof {
            let fi = first_index_of(rest, ',');
            if piece_end < n {
                assert(rest[piece_end - start] == ',');
                assert forall|j: int| 0 <= j < piece_end - start implies rest[j] != ',' by {
                    assert(rest[j] == s@[start + j]);
                }
                if fi < piece_end - start && fi >= 0 {
                    assert(rest[fi] == ',');
                }
                assert(fi == piece_end - start);
            } else {
                assert forall|j: int| 0 <= j < rest.len() implies rest[j] != ',' by {
                    assert(rest[j] == s@[start + j]);
                }
                assert(fi == -1);
            }
        }
        let piece = substring_copy(s, start, piece_end);
        let ghost pieces_rest = split_commas(rest);
        proof {
            if first_index_of(rest, ',') >= 0 {
                assert(rest.subrange(0, first_index_of(rest, ',')) =~= piece@);
            } else {
                assert(rest =~= piece@);
            }
            assert(pieces_rest[0] == piece@);
        }
        match HashType::from_str(piece.as_str()) {
            Ok(t) => {
                v.push(t);
                proof {
                    assert(parse_pieces(seq![piece@]) == Some(seq![t])) by {
                        assert(seq![piece@].drop_first() =~= Seq::<Seq<char>>::empty());
                        assert(seq![piece@][0] == piece@);
                        assert(seq![t] + Seq::<HashType>::empty() =~= seq![t]);
                    }
                    lemma_parse_pieces_concat(done0, seq![piece@]);
                    done = done0.push(piece@);
                    assert(done =~= done0 + seq![piece@]);
                    assert(v@ =~= v0 + seq![t]);
                    assert(parse_pieces(done) == Some(v@));
                }
            },
            Err(m) => {
                proof {
                    assert(spec_parse_token(pieces_rest[0]) is None);
                    lemma_parse_pieces_bad(pieces_rest);
                    lemma_parse_pieces_concat(done0, pieces_rest);
                    assert(first_bad_piece(pieces_rest) == 0);
                    assert((done0 + pieces_rest)[done0.len() as int] == piece@);
                }
                return Err(Error::InvalidHash(m));
            },
        }
        if piece_end == n {
            proof {
                assert(rest =~= piece@);
                assert(pieces_rest =~= seq![piece@]);
                assert(split_commas(s@) == done0 + pieces_rest);
                assert(done0 + pieces_rest =~= done);
                assert(parse_pieces(split_commas(s@)) == Some(v@));
            }
            return Ok(v);
        }
        start = piece_end + 1;
        proof {
            let rest2 = s@.subrange(start as int, n as int);
            let fi = first_index_of(rest, ',');
            assert(rest.subrange(fi + 1, rest.len() as int) =~= rest2);
            assert(pieces_rest == seq![piece@] + split_commas(rest2));
            assert(split_commas(s@) == (done0 + (seq![piece@] + split_commas(rest2))));
            assert(done0 + (seq![piece@] + split_commas(rest2)) =~= done + split_commas(rest2));
        }
    }
}

/// One half of the third header line: keyword, space, timestamp token.
fn check_time_part(part: &str, kw: &str) -> (r: bool)
    ensures
        r == time_part_ok(part@, kw@),
{
    proof {
        lemma_first_index_of(part@, ' ');
    }
    match find_char_from(part, ' ', 0) {
        None => {
            proof {
                if first_index_of(part@, ' ') >= 0 {
                    assert(part@[first_index_of(part@, ' ')] == ' ');
                }
            }
            false
        },
        Some(j) => {
            proof {
                let f = first_index_of(part@, ' ');
                if f < j {
                    assert(part@[f] == ' ');
                } else if f > j {
                    assert(part@[j as int] != ' ');
                }
            }
            let n = part.unicode_len();
            let k = substring_copy(part, 0, j);
            if !str_eq(k.as_str(), kw) {
                return false;
            }
            let tok = substring_copy(part, j + 1, n);
            if str_eq(tok.as_str(), "[NO DATE]") {
                true
            } else {
                crate::manifest::check_date_token(tok.as_str())
            }
        },
    }
}

/// Parse the three header lines: the version line (reporting whether the
/// token equals this program's version), the algorithm list, and the
/// timestamp line.
pub fn load_check_file(lines: &Vec<String>, version: &str) -> (r: Result<(Vec<HashType>, bool), Error>)
    ensures
        match r {
            Ok((h, vm)) => {
                &&& header_ok(lines_view(lines@))
                &&& h@ == header_algs(lines_view(lines@))
                &&& vm == (version_of(lines_view(lines@)[0]) == version@)
            },
            Err(e) => {
                &&& !header_ok(lines_view(lines@))
                &&& match e {
                    Error::FileFormat => lines@.len() < 3 || !version_line_ok(lines_view(lines@)[0])
                        || !algo_line_ok(lines_view(lines@)[1]) || !time_line_ok(
                        lines_view(lines@)[2],
                    ),
                    Error::InvalidHash(m) => lines@.len() >= 2 && version_line_ok(
                        lines_view(lines@)[0],
                    ) && algo_line_ok(lines_view(lines@)[1]) && parse_pieces(
                        split_commas(algo_part(lines_view(lines@)[1])),
                    ) is None && m@ == invalid_hash_msg(
                        split_commas(algo_part(lines_view(lines@)[1]))[first_bad_piece(
                            split_commas(algo_part(lines_view(lines@)[1])),
                        )],
                    ),
                    _ => false,
                }
            },
        },
{
    if lines.len() == 0 {
        return Err(Error::FileFormat);
    }
    let l0 = lines[0].as_str();
    proof {
        lemma_last_index_of(l0@, ' ');
        assert(lines_view(lines@)[0] == l0@);
    }
    let vm = match rfind_char(l0, ' ') {
        None => {
            return Err(Error::FileFormat);
        },
        Some(i) => {
            let n0 = l0.unicode_len();
            let kw = substring_copy(l0, 0, i);
            if !str_eq(kw.as_str(), "version") {
                return Err(Error::FileFormat);
            }
            let vtok = substring_copy(l0, i + 1, n0);
            str_eq(vtok.as_str(), version)
        },
    };
    if lines.len() < 2 {
        return Err(Error::FileFormat);
    }
    let l1 = lines[1].as_str();
    proof {
        lemma_first_index_of(l1@, ' ');
        assert(lines_view(lines@)[1] == l1@);
    }
    let hashes = match find_char_from(l1, ' ', 0) {
        None => {
            proof {
                if first_index_of(l1@, ' ') >= 0 {
                    assert(l1@[first_index_of(l1@, ' ')] == ' ');
                }
            }
            return Err(Error::FileFormat);
        },
        Some(j) => {
            proof {
                let f = first_index_of(l1@, ' ');
                if f < j {
                    assert(l1@[f] == ' ');
                } else if f > j {
                    assert(l1@[j as int] != ' ');
                }
            }
            let n1 = l1.unicode_len();
            let kw = substring_copy(l1, 0, j);
            if !str_eq(kw.as_str(), "algo") {
                return Err(Error::FileFormat);
            }
            let toks = substring_copy(l1, j + 1, n1);
            match parse_algo_tokens(toks.as_str()) {
                Ok(h) => h,
                Err(e) => {
                    return Err(e);
                },
            }
        },
    };
    if lines.len() < 3 {
        return Err(Error::FileFormat);
    }
    let l2 = lines[2].as_str();
    proof {
        assert(lines_view(lines@)[2] == l2@);
    }
    let sep = match find_sep(l2) {
        None => {
            return Err(Error::FileFormat);
        },
        Some(i) => i,
    };
    proof {
        lemma_first_sep(l2@);
        assert(sep_at(l2@, sep as int));
    }
    let n2 = l2.unicode_len();
    let left = substring_copy(l2, 0, sep);
    let right = substring_copy(l2, sep + 3, n2);
    if !check_time_part(left.as_str(), "time_start") {
        return Err(Error::FileFormat);
    }
    if !check_time_part(right.as_str(), "time_finish") {
        return Err(Error::FileFormat);
    }
    Ok((hashes, vm))
}

// ---------------------------------------------------------------------------
// Findings and path comparison
// ---------------------------------------------------------------------------
/// A user-visible audit discrepancy.  Findings are not errors: they are
/// reported and counted, and the audit goes on unless `early` is set.
#[derive(Debug)]
pub enum AuditError {
    NotFound(String),
    Mismatch(String),
    Extra(String),
    EmptyDir(String),
}

/// The kinds of finding.
#[derive(Clone, Copy, PartialEq, Eq, Structural, Debug)]
pub enum FindKind {
    NotFound,
    Mismatch,
    Extra,
    EmptyDir,
}

/// The mathematical view of a finding.
pub ghost struct FindV {
    pub kind: FindKind,
    pub path: Seq<char>,
}

/// The view of an executable finding.
pub open spec fn find_view(e: AuditError) -> FindV {
    match e {
        AuditError::NotFound(p) => FindV { kind: FindKind::NotFound, path: p@ },
        AuditError::Mismatch(p) => FindV { kind: FindKind::Mismatch, path: p@ },
        AuditError::Extra(p) => FindV { kind: FindKind::Extra, path: p@ },
        AuditError::EmptyDir(p) => FindV { kind: FindKind::EmptyDir, path: p@ },
    }
}

/// The message printed for a finding.
pub open spec fn finding_msg(f: FindV) -> Seq<char> {
    match f.kind {
        FindKind::NotFound => "audit_err: \""@ + f.path + "\" not found"@,
        FindKind::Mismatch => "audit_err: \""@ + f.path + "\" does not match"@,
        FindKind::Extra => "audit_err: aditional \""@ + f.path + "\" found in audit source"@,
        FindKind::EmptyDir => "audit_err: directory \""@ + f.path + "\" should not be empty"@,
    }
}

impl AuditError {
    /// Render the finding's message.
    pub fn message(&self) -> (r: String)
        ensures
            r@ == finding_msg(find_view(*self)),
    {
        match self {
            AuditError::NotFound(p) => {
                let mut s = String::from_str("audit_err: \"");
                s.append(p.as_str());
                s.append("\" not found");
                s
            },
            AuditError::Mismatch(p) => {
                let mut s = String::from_str("audit_err: \"");
                s.append(p.as_str());
                s.append("\" does not match");
                s
            },
            AuditError::Extra(p) => {
                let mut s = String::from_str("audit_err: aditional \"");
                s.append(p.as_str());
                s.append("\" found in audit source");
                s
            },
            AuditError::EmptyDir(p) => {
                let mut s = String::from_str("audit_err: directory \"");
                s.append(p.as_str());
                s.append("\" should not be empty");
                s
            },
        }
    }
}

/// The immediate parent of a path: everything before its last `/`.
pub open spec fn parent_of(p: Seq<char>) -> Option<Seq<char>> {
    let i = last_index_of(p, '/');
    if i < 0 {
        None
    } else {
        Some(p.subrange(0, i))
    }
}

/// Whether a record marks a directory (it has no digests).
pub open spec fn is_dir_rec(r: RecView) -> bool {
    r.digests is None
}

/// The outcome of comparing a manifest record against a live record.
#[derive(Clone, Copy, PartialEq, Eq, Structural, Debug)]
pub enum CmpRes {
    CEqual,
    CUnrelated,
    CExtra,
    CEmptyDir,
}

/// How a manifest record `m` relates to a live record `l`: the same path;
/// a live file directly under a directory the manifest recorded empty; a
/// live directory over a file the manifest recorded; or unrelated.
pub open spec fn cmp_spec(m: RecView, l: RecView) -> CmpRes {
    if m.path == l.path {
        CmpRes::CEqual
    } else if is_dir_rec(m) && !is_dir_rec(l) && parent_of(l.path) == Some(m.path) {
        CmpRes::CExtra
    } else if !is_dir_rec(m) && is_dir_rec(l) && parent_of(m.path) == Some(l.path) {
        CmpRes::CEmptyDir
    } else {
        CmpRes::CUnrelated
    }
}

/// Whether `child`'s immediate parent is `anc`.
fn parent_eq(child: &str, anc: &str) -> (r: bool)
    ensures
        r == (parent_of(child@) == Some(anc@)),
{
    proof {
        lemma_last_index_of(child@, '/');
    }
    match rfind_char(child, '/') {
        None => false,
        Some(i) => {
            let par = substring_copy(child, 0, i);
            str_eq(par.as_str(), anc)
        },
    }
}

/// Compare a manifest record against a live record.
pub fn compare_paths(reader: &HashData, live: &HashData) -> (r: CmpRes)
    ensures
        r == cmp_spec(rec_view(*reader), rec_view(*live)),
{
    if str_eq(reader.0.as_str(), live.0.as_str()) {
        return CmpRes::CEqual;
    }
    let m_dir = reader.1.is_none();
    let l_dir = live.1.is_none();
    if m_dir && !l_dir {
        if parent_eq(live.0.as_str(), reader.0.as_str()) {
            CmpRes::CExtra
        } else {
            CmpRes::CUnrelated
        }
    } else if !m_dir && l_dir {
        if parent_eq(reader.0.as_str(), live.0.as_str()) {
            CmpRes::CEmptyDir
        } else {
            CmpRes::CUnrelated
        }
    } else {
        CmpRes::CUnrelated
    }
}

/// Digest-list equality between two records.
fn opt_str_eq(a: &Option<String>, b: &Option<String>) -> (r: bool)
    ensures
        r == (crate::records::opt_view(*a) == crate::records::opt_view(*b)),
{
    match (a, b) {
        (None, None) => true,
        (Some(x), Some(y)) => str_eq(x.as_str(), y.as_str()),
        _ => false,
    }
}

// ---------------------------------------------------------------------------
// The comparator's state machine, in specification form
// ---------------------------------------------------------------------------
/// The kind of hard error the reader can raise mid-stream.
#[derive(Clone, Copy, PartialEq, Eq, Structural, Debug)]
pub enum ErrKind {
    FileFormatK,
    AuditEmptyDirK,
}

/// A hard reader error: its kind, with the path for the empty-directory case.
pub ghost struct ErrV {
    pub kind: ErrKind,
    pub path: Seq<char>,
}

/// Whether a data line is malformed (no `|` at all).
pub open spec fn line_bad(s: Seq<char>) -> bool {
    split_line(s) is None
}

/// Whether a data line is an empty-directory record.
pub open spec fn line_is_empty_dir(s: Seq<char>) -> bool {
    split_line(s) matches Some((p, h)) && h.len() == 0
}

/// The record a well-formed data line denotes.
pub open spec fn line_rec(s: Seq<char>) -> RecView
    recommends
        !line_bad(s),
{
    let (p, h) = split_line(s).unwrap();
    RecView {
        path: p,
        digests: if h.len() == 0 {
            None
        } else {
            Some(h)
        },
    }
}

/// The outcome of one rotation pass over the backlog.
pub ghost struct SbOut {
    pub matched: bool,
    pub finding: Option<FindV>,
    pub backlog: Seq<RecView>,
}

/// Scan up to `n` backlog entries for the live record `l`: an equal path
/// accepts or reports a mismatch; unrelated entries rotate to the back; an
/// inconsistent pair reports, keeping the entry only when it is the
/// directory side.
pub open spec fn sb_step(bl: Seq<RecView>, l: RecView, n: nat) -> SbOut
    decreases n,
{
    if n == 0 || bl.len() == 0 {
        SbOut { matched: false, finding: None, backlog: bl }
    } else {
        let b = bl[0];
        match cmp_spec(b, l) {
            CmpRes::CEqual => if b.digests == l.digests {
                SbOut { matched: true, finding: None, backlog: bl.drop_first() }
            } else {
                SbOut {
                    matched: false,
                    finding: Some(FindV { kind: FindKind::Mismatch, path: l.path }),
                    backlog: bl.drop_first(),
                }
            },
            CmpRes::CUnrelated => sb_step(bl.drop_first().push(b), l, (n - 1) as nat),
            CmpRes::CExtra => SbOut {
                matched: false,
                finding: Some(FindV { kind: FindKind::Extra, path: l.path }),
                backlog: bl.drop_first().push(b),
            },
            CmpRes::CEmptyDir => SbOut {
                matched: false,
                finding: Some(FindV { kind: FindKind::EmptyDir, path: l.path }),
                backlog: bl.drop_first(),
            },
        }
    }
}

/// The outcome of pulling manifest records for one live record.
pub ghost struct SrOut {
    pub matched: bool,
    pub finding: Option<FindV>,
    pub err: Option<ErrV>,
    pub backlog: Seq<RecView>,
    pub pos: int,
}

/// Pull manifest records one at a time for the live record `l`: unrelated
/// records go to the backlog; an exhausted manifest reports the live record
/// as extra; malformed or refused lines stop the audit with a hard error.
pub open spec fn sr_step(
    lines: Seq<Seq<char>>,
    pos: int,
    bl: Seq<RecView>,
    l: RecView,
    ed: bool,
) -> SrOut
    decreases lines.len() - pos,
{
    if pos < 0 || pos >= lines.len() {
        SrOut {
            matched: false,
            finding: Some(FindV { kind: FindKind::Extra, path: l.path }),
            err: None,
            backlog: bl,
            pos,
        }
    } else if line_bad(lines[pos]) {
        SrOut {
            matched: false,
            finding: None,
            err: Some(ErrV { kind: ErrKind::FileFormatK, path: Seq::<char>::empty() }),
            backlog: bl,
            pos: pos + 1,
        }
    } else if line_is_empty_dir(lines[pos]) && !ed {
        SrOut {
            matched: false,
            finding: None,
            err: Some(ErrV { kind: ErrKind::AuditEmptyDirK, path: line_rec(lines[pos]).path }),
            backlog: bl,
            pos: pos + 1,
        }
    } else {
        let m = line_rec(lines[pos]);
        match cmp_spec(m, l) {
            CmpRes::CEqual => if m.digests == l.digests {
                SrOut { matched: true, finding: None, err: None, backlog: bl, pos: pos + 1 }
            } else {
                SrOut {
                    matched: false,
                    finding: Some(FindV { kind: FindKind::Mismatch, path: l.path }),
                    err: None,
                    backlog: bl,
                    pos: pos + 1,
                }
            },
            CmpRes::CUnrelated => sr_step(lines, pos + 1, bl.push(m), l, ed),
            CmpRes::CExtra => SrOut {
                matched: false,
                finding: Some(FindV { kind: FindKind::Extra, path: l.path }),
                err: None,
                backlog: bl.push(m),
                pos: pos + 1,
            },
            CmpRes::CEmptyDir => SrOut {
                matched: false,
                finding: Some(FindV { kind: FindKind::EmptyDir, path: l.path }),
                err: None,
                backlog: bl,
                pos: pos + 1,
            },
        }
    }
}

/// A reader search that neither matched nor erred produced a finding.
pub proof fn lemma_sr_shape(lines: Seq<Seq<char>>, pos: int, bl: Seq<RecView>, l: RecView, ed: bool)
    ensures
        ({
            let sr = sr_step(lines, pos, bl, l, ed);
            (!sr.matched && sr.err is None ==> sr.finding is Some) && (sr.matched ==> sr.finding
                is None && sr.err is None)
        }),
    decreases lines.len() - pos,
{
    if 0 <= pos < lines.len() && !line_bad(lines[pos]) && !(line_is_empty_dir(lines[pos]) && !ed) {
        if cmp_spec(line_rec(lines[pos]), l) == CmpRes::CUnrelated {
            lemma_sr_shape(lines, pos + 1, bl.push(line_rec(lines[pos])), l, ed);
        }
    }
}

/// A backlog search that matched produced no finding.
pub proof fn lemma_sb_shape(bl: Seq<RecView>, l: RecView, n: nat)
    ensures
        ({
            let sb = sb_step(bl, l, n);
            sb.matched ==> sb.finding is None
        }),
    decreases n,
{
    if n > 0 && bl.len() > 0 && cmp_spec(bl[0], l) == CmpRes::CUnrelated {
        lemma_sb_shape(bl.drop_first().push(bl[0]), l, (n - 1) as nat);
    }
}

/// The full state change one live record causes.
pub ghost struct StepOut {
    pub pos: int,
    pub backlog: Seq<RecView>,
    pub finds: Seq<FindV>,
    pub audit_err: bool,
    pub canceled: bool,
    pub err: Option<ErrV>,
}

/// Process one live record: search the backlog, then the manifest stream.
/// Findings set the audit flag and, in early mode, latch cancellation; a
/// hard reader error latches cancellation and stops the audit.
pub open spec fn handle_spec(
    lines: Seq<Seq<char>>,
    pos: int,
    bl: Seq<RecView>,
    finds: Seq<FindV>,
    audit_err: bool,
    l: RecView,
    ed: bool,
    early: bool,
    canceled: bool,
) -> StepOut {
    if canceled {
        StepOut { pos, backlog: bl, finds, audit_err, canceled, err: None }
    } else {
        let sb = sb_step(bl, l, bl.len());
        if sb.matched {
            StepOut { pos, backlog: sb.backlog, finds, audit_err, canceled, err: None }
        } else if sb.finding is Some {
            StepOut {
                pos,
                backlog: sb.backlog,
                finds: finds.push(sb.finding.unwrap()),
                audit_err: true,
                canceled: early,
                err: None,
            }
        } else {
            let sr = sr_step(lines, pos, sb.backlog, l, ed);
            if sr.err is Some {
                StepOut {
                    pos: sr.pos,
                    backlog: sr.backlog,
                    finds,
                    audit_err,
                    canceled: true,
                    err: sr.err,
                }
            } else if sr.matched {
                StepOut { pos: sr.pos, backlog: sr.backlog, finds, audit_err, canceled, err: None }
            } else {
                StepOut {
                    pos: sr.pos,
                    backlog: sr.backlog,
                    finds: finds.push(sr.finding.unwrap()),
                    audit_err: true,
                    canceled: early,
                    err: None,
                }
            }
        }
    }
}

/// The outcome of reading the rest of the manifest into the backlog.
pub ghost struct FlOut {
    pub err: Option<ErrV>,
    pub backlog: Seq<RecView>,
    pub pos: int,
}

/// After the live stream closes, the remaining manifest records join the
/// backlog; malformed or refused lines stop the audit.
pub open spec fn flush_spec(lines: Seq<Seq<char>>, pos: int, bl: Seq<RecView>, ed: bool) -> FlOut
    decreases lines.len() - pos,
{
    if pos < 0 || pos >= lines.len() {
        FlOut { err: None, backlog: bl, pos }
    } else if line_bad(lines[pos]) {
        FlOut {
            err: Some(ErrV { kind: ErrKind::FileFormatK, path: Seq::<char>::empty() }),
            backlog: bl,
            pos: pos + 1,
        }
    } else if line_is_empty_dir(lines[pos]) && !ed {
        FlOut {
            err: Some(ErrV { kind: ErrKind::AuditEmptyDirK, path: line_rec(lines[pos]).path }),
            backlog: bl,
            pos: pos + 1,
        }
    } else {
        flush_spec(lines, pos + 1, bl.push(line_rec(lines[pos])), ed)
    }
}

/// The outcome of reporting the backlog remainder.
pub ghost struct DrOut {
    pub finds: Seq<FindV>,
    pub result: bool,
    pub canceled: bool,
}

/// Report `NotFound` for every backlog entry; each finding sets the audit
/// flag.  Cancellation (latched by the first finding in early mode) stops
/// the drain, returning the flag as accumulated so far.
pub open spec fn drain_spec(
    bl: Seq<RecView>,
    finds: Seq<FindV>,
    audit_err: bool,
    early: bool,
    canceled: bool,
) -> DrOut
    decreases bl.len(),
{
    if bl.len() == 0 {
        DrOut { finds, result: true, canceled }
    } else if canceled {
        DrOut { finds, result: audit_err, canceled }
    } else {
        drain_spec(
            bl.drop_first(),
            finds.push(FindV { kind: FindKind::NotFound, path: bl[0].path }),
            true,
            early,
            early,
        )
    }
}

/// The final wrap-up: flush the manifest, then either report the audit
/// flag (empty backlog) or drain the backlog into `NotFound` findings.
pub ghost struct CkOut {
    pub err: Option<ErrV>,
    pub finds: Seq<FindV>,
    pub result: bool,
    pub canceled: bool,
}

pub open spec fn check_spec(
    lines: Seq<Seq<char>>,
    pos: int,
    bl: Seq<RecView>,
    finds: Seq<FindV>,
    audit_err: bool,
    ed: bool,
    early: bool,
    canceled: bool,
) -> CkOut {
    if canceled {
        // cancellation is final: nothing further is read or reported
        CkOut { err: None, finds, result: audit_err, canceled }
    } else {
        let fl = flush_spec(lines, pos, bl, ed);
        if fl.err is Some {
            CkOut { err: fl.err, finds, result: false, canceled }
        } else if fl.backlog.len() == 0 {
            CkOut { err: None, finds, result: audit_err, canceled }
        } else {
            let dr = drain_spec(fl.backlog, finds, audit_err, early, canceled);
            CkOut { err: None, finds: dr.finds, result: dr.result, canceled: dr.canceled }
        }
    }
}

/// Feed a whole sequence of live records through the comparator, stopping
/// at the first hard error.
pub open spec fn feed_spec(
    lines: Seq<Seq<char>>,
    pos: int,
    bl: Seq<RecView>,
    finds: Seq<FindV>,
    audit_err: bool,
    recs: Seq<RecView>,
    ed: bool,
    early: bool,
    canceled: bool,
) -> StepOut
    decreases recs.len(),
{
    if recs.len() == 0 {
        StepOut { pos, backlog: bl, finds, audit_err, canceled, err: None }
    } else {
        let so = handle_spec(lines, pos, bl, finds, audit_err, recs[0], ed, early, canceled);
        if so.err is Some {
            so
        } else {
            feed_spec(
                lines,
                so.pos,
                so.backlog,
                so.finds,
                so.audit_err,
                recs.drop_first(),
                ed,
                early,
                so.canceled,
            )
        }
    }
}

// ---------------------------------------------------------------------------
// The executable comparator
// ---------------------------------------------------------------------------
/// The streaming audit comparator: the manifest's lines with a read
/// position, the backlog of unmatched manifest records, and the findings
/// reported so far.
pub struct Checker {
    pub lines: Vec<String>,
    pub pos: usize,
    pub backlog: Vec<HashData>,
    pub findings: Vec<AuditError>,
    pub audit_err: bool,
    pub early: bool,
    pub empty_dirs: bool,
}

impl Checker {
    /// The manifest's lines.
    pub open spec fn lview(&self) -> Seq<Seq<char>> {
        lines_view(self.lines@)
    }

    /// The read position in the manifest.
    pub open spec fn pos_spec(&self) -> int {
        self.pos as int
    }

    /// The backlog's records.
    pub open spec fn bview(&self) -> Seq<RecView> {
        self.backlog@.map(|i: int, h: HashData| rec_view(h))
    }

    /// The findings reported so far.
    pub open spec fn fview(&self) -> Seq<FindV> {
        self.findings@.map(|i: int, e: AuditError| find_view(e))
    }

    /// The read position never passes the end of the manifest.
    pub open spec fn inv(&self) -> bool {
        self.pos <= self.lines@.len()
    }

    /// A fresh comparator over the manifest's lines, reading data lines
    /// from `start` on.
    pub fn new(lines: Vec<String>, start: usize, early: bool, empty_dirs: bool) -> (r: Checker)
        requires
            start <= lines@.len(),
        ensures
            r.inv(),
            r.lview() == lines_view(lines@),
            r.pos_spec() == start,
            r.bview() == Seq::<RecView>::empty(),
            r.fview() == Seq::<FindV>::empty(),
            r.audit_err == false,
            r.early == early,
            r.empty_dirs == empty_dirs,
    {
        let r = Checker {
            lines,
            pos: start,
            backlog: Vec::new(),
            findings: Vec::new(),
            audit_err: false,
            early,
            empty_dirs,
        };
        proof {
            assert(r.bview() =~= Seq::<RecView>::empty());
            assert(r.fview() =~= Seq::<FindV>::empty());
        }
        r
    }

    /// Rotate through the backlog looking for the live record.
    #[verifier::loop_isolation(false)]
    fn search_backlog(&mut self, hash_data: &HashData) -> (r: (bool, Option<AuditError>))
        ensures
            ({
                let sb = sb_step(
                    old(self).bview(),
                    rec_view(*hash_data),
                    old(self).bview().len() as nat,
                );
                &&& final (self).bview() == sb.backlog
                &&& r.0 == sb.matched
                &&& match (r.1, sb.finding) {
                    (None, None) => true,
                    (Some(e), Some(f)) => find_view(e) == f,
                    _ => false,
                }
            }),
            final (self).lines == old(self).lines,
            final (self).pos == old(self).pos,
            final (self).findings == old(self).findings,
            final (self).audit_err == old(self).audit_err,
            final (self).early == old(self).early,
            final (self).empty_dirs == old(self).empty_dirs,
    {
        let ghost l = rec_view(*hash_data);
        let ghost target = sb_step(self.bview(), l, self.bview().len() as nat);
        let mut k = self.backlog.len();
        while k > 0
            invariant
                k <= self.backlog@.len(),
                sb_step(self.bview(), l, k as nat) == target,
                self.lines == old(self).lines,
                self.pos == old(self).pos,
                self.findings == old(self).findings,
                self.audit_err == old(self).audit_err,
                self.early == old(self).early,
                self.empty_dirs == old(self).empty_dirs,
            decreases k,
        {
            let ghost bv0 = self.bview();
            let b = self.backlog.remove(0);
            proof {
                assert(rec_view(b) == bv0[0]);
                assert(self.bview() =~= bv0.drop_first());
            }
            match compare_paths(&b, hash_data) {
                CmpRes::CEqual => {
                    let ok = opt_str_eq(&b.1, &hash_data.1);
                    if ok {
                        return (true, None);
                    } else {
                        return (false, Some(AuditError::Mismatch(hash_data.0.clone())));
                    }
                },
                CmpRes::CUnrelated => {
                    let ghost bv1 = self.bview();
                    self.backlog.push(b);
                    proof {
                        assert(self.bview() =~= bv1.push(rec_view(b)));
                        assert(self.bview() =~= bv0.drop_first().push(bv0[0]));
                    }
                    k -= 1;
                },
                CmpRes::CExtra => {
                    let ghost bv1 = self.bview();
                    self.backlog.push(b);
                    proof {
                        assert(self.bview() =~= bv1.push(rec_view(b)));
                        assert(self.bview() =~= bv0.drop_first().push(bv0[0]));
                    }
                    return (false, Some(AuditError::Extra(hash_data.0.clone())));
                },
                CmpRes::CEmptyDir => {
                    return (false, Some(AuditError::EmptyDir(hash_data.0.clone())));
                },
            }
        }
        (false, None)
    }

    /// Pull manifest records one at a time looking for the live record.
    #[verifier::loop_isolation(false)]
    fn search_reader(&mut self, hash_data: &HashData) -> (r: Result<(bool, Option<AuditError>), Error>)
        requires
            old(self).inv(),
        ensures
            final (self).inv(),
            ({
                let sr = sr_step(
                    old(self).lview(),
                    old(self).pos_spec(),
                    old(self).bview(),
                    rec_view(*hash_data),
                    old(self).empty_dirs,
                );
                &&& final (self).bview() == sr.backlog
                &&& final (self).pos_spec() == sr.pos
                &&& match r {
                    Ok((m, f)) => sr.err is None && m == sr.matched && (match (f, sr.finding) {
                        (None, None) => true,
                        (Some(e), Some(fv)) => find_view(e) == fv,
                        _ => false,
                    }),
                    Err(e) => sr.err matches Some(ev) && (match (e, ev.kind) {
                        (Error::FileFormat, ErrKind::FileFormatK) => true,
                        (Error::AuditEmptyDir(p), ErrKind::AuditEmptyDirK) => p@ == ev.path,
                        _ => false,
                    }),
                }
            }),
            final (self).lines == old(self).lines,
            final (self).findings == old(self).findings,
            final (self).audit_err == old(self).audit_err,
            final (self).early == old(self).early,
            final (self).empty_dirs == old(self).empty_dirs,
    {
        let ghost l = rec_view(*hash_data);
        let ghost target = sr_step(self.lview(), self.pos_spec(), self.bview(), l, self.empty_dirs);
        loop
            invariant
                self.inv(),
                sr_step(self.lview(), self.pos_spec(), self.bview(), l, self.empty_dirs) == target,
                self.lines == old(self).lines,
                self.findings == old(self).findings,
                self.audit_err == old(self).audit_err,
                self.early == old(self).early,
                self.empty_dirs == old(self).empty_dirs,
            decreases self.lines@.len() - self.pos,
        {
            if self.pos >= self.lines.len() {
                return Ok((false, Some(AuditError::Extra(hash_data.0.clone()))));
            }
            let ghost bv0 = self.bview();
            let line = self.lines[self.pos].clone();
            proof {
                assert(line@ == self.lview()[self.pos_spec()]);
            }
            self.pos = self.pos + 1;
            match HashData::try_from_string(line, self.empty_dirs) {
                Err(e) => {
                    match e {
                        Error::FileFormat => {
                            return Err(Error::FileFormat);
                        },
                        Error::AuditEmptyDir(p) => {
                            return Err(Error::AuditEmptyDir(p));
                        },
                        _ => {
                            proof {
                                assert(false);
                            }
                            return Err(Error::FileFormat);
                        },
                    }
                },
                Ok(m) => {
                    proof {
                        assert(rec_view(m) == line_rec(line@));
                    }
                    match compare_paths(&m, hash_data) {
                        CmpRes::CEqual => {
                            let ok = opt_str_eq(&m.1, &hash_data.1);
                            if ok {
                                return Ok((true, None));
                            } else {
                                return Ok(
                                    (false, Some(AuditError::Mismatch(hash_data.0.clone()))),
                                );
                            }
                        },
                        CmpRes::CUnrelated => {
                            let ghost bv1 = self.bview();
                            self.backlog.push(m);
                            proof {
                                assert(self.bview() =~= bv1.push(line_rec(line@)));
                            }
                        },
                        CmpRes::CExtra => {
                            let ghost bv1 = self.bview();
                            self.backlog.push(m);
                            proof {
                                assert(self.bview() =~= bv1.push(line_rec(line@)));
                            }
                            return Ok((false, Some(AuditError::Extra(hash_data.0.clone()))));
                        },
                        CmpRes::CEmptyDir => {
                            return Ok((false, Some(AuditError::EmptyDir(hash_data.0.clone()))));
                        },
                    }
                },
            }
        }
    }

    /// Process one live record from the engine.
    pub fn handle_record(&mut self, hash_data: HashData, flag: &mut CancelFlag) -> (r: Result<
        (),
        Error,
    >)
        requires
            old(self).inv(),
        ensures
            final (self).inv(),
            final (self).lview() == old(self).lview(),
            final (self).early == old(self).early,
            final (self).empty_dirs == old(self).empty_dirs,
            ({
                let so = handle_spec(
                    old(self).lview(),
                    old(self).pos_spec(),
                    old(self).bview(),
                    old(self).fview(),
                    old(self).audit_err,
                    rec_view(hash_data),
                    old(self).empty_dirs,
                    old(self).early,
                    old(flag).set(),
                );
                &&& final (self).pos_spec() == so.pos
                &&& final (self).bview() == so.backlog
                &&& final (self).fview() == so.finds
                &&& final (self).audit_err == so.audit_err
                &&& final (flag).set() == so.canceled
                &&& match (r, so.err) {
                    (Ok(()), None) => true,
                    (Err(e), Some(ev)) => match (e, ev.kind) {
                        (Error::FileFormat, ErrKind::FileFormatK) => true,
                        (Error::AuditEmptyDir(p), ErrKind::AuditEmptyDirK) => p@ == ev.path,
                        _ => false,
                    },
                    _ => false,
                }
            }),
    {
        let ghost l = rec_view(hash_data);
        if is_canceled(flag) {
            return Ok(());
        }
        proof {
            lemma_sb_shape(self.bview(), l, self.bview().len() as nat);
        }
        let (matched, finding) = self.search_backlog(&hash_data);
        if matched {
            return Ok(());
        }
        match finding {
            Some(f) => {
                let ghost fv0 = self.fview();
                self.findings.push(f);
                self.audit_err = true;
                proof {
                    assert(self.fview() =~= fv0.push(find_view(f)));
                }
                if self.early {
                    cancel(flag);
                }
                return Ok(());
            },
            None => {},
        }
        proof {
            lemma_sr_shape(self.lview(), self.pos_spec(), self.bview(), l, self.empty_dirs);
        }
        match self.search_reader(&hash_data) {
            Ok((m2, f2)) => {
                if m2 {
                    return Ok(());
                }
                match f2 {
                    Some(f) => {
                        let ghost fv0 = self.fview();
                        self.findings.push(f);
                        self.audit_err = true;
                        proof {
                            assert(self.fview() =~= fv0.push(find_view(f)));
                        }
                        if self.early {
                            cancel(flag);
                        }
                        Ok(())
                    },
                    None => {
                        proof {
                            assert(false);
                        }
                        Ok(())
                    },
                }
            },
            Err(e) => {
                cancel(flag);
                Err(e)
            },
        }
    }

    /// Wrap the audit up after the live stream ends: read the rest of the
    /// manifest into the backlog, then report `NotFound` for whatever is
    /// left there, each such finding failing the audit.  Under a latched
    /// cancellation nothing further is read or reported.  Returns whether
    /// the audit failed.
    #[verifier::loop_isolation(false)]
    pub fn check(&mut self, flag: &mut CancelFlag) -> (r: Result<bool, Error>)
        requires
            old(self).inv(),
        ensures
            final (self).inv(),
            final (self).lview() == old(self).lview(),
            final (self).early == old(self).early,
            final (self).empty_dirs == old(self).empty_dirs,
            ({
                let co = check_spec(
                    old(self).lview(),
                    old(self).pos_spec(),
                    old(self).bview(),
                    old(self).fview(),
                    old(self).audit_err,
                    old(self).empty_dirs,
                    old(self).early,
                    old(flag).set(),
                );
                &&& match (r, co.err) {
                    (Ok(b), None) => b == co.result && final (self).audit_err == b
                        && final (self).fview() == co.finds && final (flag).set() == co.canceled
                        && final (self).bview() == Seq::<RecView>::empty(),
                    (Err(e), Some(ev)) => (match (e, ev.kind) {
                        (Error::FileFormat, ErrKind::FileFormatK) => true,
                        (Error::AuditEmptyDir(p), ErrKind::AuditEmptyDirK) => p@ == ev.path,
                        _ => false,
                    }) && final (self).fview() == old(self).fview() && final (self).audit_err
                        == old(self).audit_err && final (flag).set() == old(flag).set(),
                    _ => false,
                }
            }),
    {
        if is_canceled(flag) {
            let ae = self.audit_err;
            self.backlog.clear();
            proof {
                assert(self.bview() =~= Seq::<RecView>::empty());
            }
            return Ok(ae);
        }
        let ghost fl_target = flush_spec(
            self.lview(),
            self.pos_spec(),
            self.bview(),
            self.empty_dirs,
        );
        while self.pos < self.lines.len()
            invariant
                self.inv(),
                flush_spec(self.lview(), self.pos_spec(), self.bview(), self.empty_dirs)
                    == fl_target,
                self.lines == old(self).lines,
                self.findings == old(self).findings,
                self.audit_err == old(self).audit_err,
                self.early == old(self).early,
                self.empty_dirs == old(self).empty_dirs,
            decreases self.lines@.len() - self.pos,
        {
            let line = self.lines[self.pos].clone();
            proof {
                assert(line@ == self.lview()[self.pos_spec()]);
            }
            self.pos = self.pos + 1;
            match HashData::try_from_string(line, self.empty_dirs) {
                Err(e) => {
                    match e {
                        Error::FileFormat => {
                            return Err(Error::FileFormat);
                        },
                        Error::AuditEmptyDir(p) => {
                            return Err(Error::AuditEmptyDir(p));
                        },
                        _ => {
                            proof {
                                assert(false);
                            }
                            return Err(Error::FileFormat);
                        },
                    }
                },
                Ok(m) => {
                    let ghost bv1 = self.bview();
                    proof {
                        assert(rec_view(m) == line_rec(line@));
                    }
                    self.backlog.push(m);
                    proof {
                        assert(self.bview() =~= bv1.push(line_rec(line@)));
                    }
                },
            }
        }
        if self.backlog.len() == 0 {
            return Ok(self.audit_err);
        }
        let ghost n0 = self.backlog@.len();
        let ghost dr_target = drain_spec(
            self.bview(),
            self.fview(),
            self.audit_err,
            self.early,
            flag.set(),
        );
        while self.backlog.len() > 0
            invariant
                drain_spec(self.bview(), self.fview(), self.audit_err, self.early, flag.set())
                    == dr_target,
                self.backlog@.len() < n0 ==> self.audit_err,
                self.lines == old(self).lines,
                self.early == old(self).early,
                self.empty_dirs == old(self).empty_dirs,
                self.pos == old(self).lines@.len(),
            decreases self.backlog@.len(),
        {
            if is_canceled(flag) {
                let ae = self.audit_err;
                self.backlog.clear();
                proof {
                    assert(self.bview() =~= Seq::<RecView>::empty());
                }
                return Ok(ae);
            }
            let ghost bv0 = self.bview();
            let ghost fv0 = self.fview();
            let b = self.backlog.remove(0);
            proof {
                assert(rec_view(b) == bv0[0]);
                assert(self.bview() =~= bv0.drop_first());
            }
            let f = AuditError::NotFound(b.0);
            self.findings.push(f);
            self.audit_err = true;
            proof {
                assert(self.fview() =~= fv0.push(
                    FindV { kind: FindKind::NotFound, path: bv0[0].path },
                ));
            }
            if self.early {
                cancel(flag);
            }
        }
        proof {
            assert(self.bview() =~= Seq::<RecView>::empty());
        }
        Ok(true)
    }
}

} // verus!
