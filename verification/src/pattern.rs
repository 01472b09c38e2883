//! Patterns: the matchable unit of a grammar rule.
//!
//! A pattern is a flat sequence of elements matched greedily and without
//! backtracking against the bytes of one line.  A `(`/`)` pair records a
//! captured group; a backreference element stands for the bytes such a group
//! captured in a region's begin match, and is spliced into the region's end
//! pattern when the region is entered.

use vstd::prelude::*;

verus! {

/// A character class a single input byte is tested against.
#[derive(Clone, Copy, PartialEq, Eq, Structural, Debug)]
pub enum Class {
    /// An ASCII decimal digit.
    Digit,
    /// An ASCII letter.
    Alpha,
    /// A letter, digit or underscore.
    Word,
    /// A space or a tab.
    Space,
    /// Any byte.
    Any,
}

/// One element of a pattern.
#[derive(Clone, Copy, PartialEq, Eq, Structural, Debug)]
pub enum PatElem {
    /// Exactly this byte.
    Lit(u8),
    /// One byte of the class.
    Cls(Class),
    /// One or more bytes of the class, taken greedily.
    Many(Class),
    /// Start of a captured group.
    Open,
    /// End of a captured group.
    Close,
    /// The bytes captured by group `k` of the enclosing region's begin
    /// match.  It never matches directly: entering a region splices the
    /// captured bytes in its place (see `substitute`).
    Backref(usize),
}

/// Whether byte `b` belongs to class `c`.
pub open spec fn class_matches(c: Class, b: u8) -> bool {
    match c {
        Class::Digit => 48 <= b && b <= 57,
        Class::Alpha => (97 <= b && b <= 122) || (65 <= b && b <= 90),
        Class::Word => (48 <= b && b <= 57) || (97 <= b && b <= 122) || (65 <= b && b <= 90)
            || b == 95,
        Class::Space => b == 32 || b == 9,
        Class::Any => true,
    }
}

/// Executable test of `class_matches`.
pub fn class_matches_exec(c: Class, b: u8) -> (r: bool)
    ensures
        r == class_matches(c, b),
{
    match c {
        Class::Digit => 48 <= b && b <= 57,
        Class::Alpha => (97 <= b && b <= 122) || (65 <= b && b <= 90),
        Class::Word => (48 <= b && b <= 57) || (97 <= b && b <= 122) || (65 <= b && b <= 90)
            || b == 95,
        Class::Space => b == 32 || b == 9,
        Class::Any => true,
    }
}

/// First position in `[pos, hi)` at which a byte outside class `c` stands,
/// or `hi` if all of them belong to `c`.
pub open spec fn scan_class(c: Class, text: Seq<u8>, hi: int, pos: int) -> int
    decreases hi - pos,
{
    if pos < 0 || pos >= hi || hi > text.len() {
        pos
    } else if class_matches(c, text[pos]) {
        scan_class(c, text, hi, pos + 1)
    } else {
        pos
    }
}

pub proof fn lemma_scan_class_bounds(c: Class, text: Seq<u8>, hi: int, pos: int)
    requires
        0 <= pos <= hi <= text.len(),
    ensures
        pos <= scan_class(c, text, hi, pos) <= hi,
    decreases hi - pos,
{
    if pos < hi && class_matches(c, text[pos]) {
        lemma_scan_class_bounds(c, text, hi, pos + 1);
    }
}

/// Executable twin of `scan_class`.
pub fn scan_class_exec(c: Class, text: &Vec<u8>, hi: usize, pos: usize) -> (r: usize)
    requires
        pos <= hi <= text.len(),
    ensures
        r == scan_class(c, text@, hi as int, pos as int),
        pos <= r <= hi,
    decreases hi - pos,
{
    if pos < hi && class_matches_exec(c, text[pos]) {
        scan_class_exec(c, text, hi, pos + 1)
    } else {
        pos
    }
}

/// The view of executable capture lists as mathematical position pairs.
pub open spec fn caps_view(s: Seq<(usize, usize)>) -> Seq<(int, int)> {
    s.map_values(|p: (usize, usize)| (p.0 as int, p.1 as int))
}

/// The view of an executable open-group marker.
pub open spec fn marker_view(m: Option<usize>) -> Option<int> {
    match m {
        Some(v) => Some(v as int),
        None => None,
    }
}

/// Greedy, non-backtracking match of the pattern elements `elems[i..]`
/// against `text` at position `pos`, never reading at or past `hi`.
/// `open_at` is the start of the currently open captured group, `caps` the
/// groups captured so far.  On success: the position one past the matched
/// bytes, and the captured groups.
pub open spec fn match_from(
    elems: Seq<PatElem>,
    i: int,
    text: Seq<u8>,
    hi: int,
    pos: int,
    open_at: Option<int>,
    caps: Seq<(int, int)>,
) -> Option<(int, Seq<(int, int)>)>
    decreases elems.len() - i,
{
    if i < 0 || i >= elems.len() {
        match open_at {
            Some(_) => None,
            None => Some((pos, caps)),
        }
    } else {
        match elems[i] {
            PatElem::Lit(b) => if pos < hi && pos < text.len() && text[pos] == b {
                match_from(elems, i + 1, text, hi, pos + 1, open_at, caps)
            } else {
                None
            },
            PatElem::Cls(c) => if pos < hi && pos < text.len() && class_matches(c, text[pos]) {
                match_from(elems, i + 1, text, hi, pos + 1, open_at, caps)
            } else {
                None
            },
            PatElem::Many(c) => {
                let e = scan_class(c, text, hi, pos);
                if e == pos {
                    None
                } else {
                    match_from(elems, i + 1, text, hi, e, open_at, caps)
                }
            },
            PatElem::Open => match open_at {
                Some(_) => None,
                None => match_from(elems, i + 1, text, hi, pos, Some(pos), caps),
            },
            PatElem::Close => match open_at {
                Some(s) => match_from(elems, i + 1, text, hi, pos, None, caps.push((s, pos))),
                None => None,
            },
            PatElem::Backref(_) => None,
        }
    }
}

/// A successful match never moves backwards nor past `hi`.
pub proof fn lemma_match_from_bounds(
    elems: Seq<PatElem>,
    i: int,
    text: Seq<u8>,
    hi: int,
    pos: int,
    open_at: Option<int>,
    caps: Seq<(int, int)>,
)
    requires
        0 <= pos <= hi <= text.len(),
    ensures
        match match_from(elems, i, text, hi, pos, open_at, caps) {
            Some(ecv) => pos <= ecv.0 <= hi,
            None => true,
        },
    decreases elems.len() - i,
{
    if i < 0 || i >= elems.len() {
    } else {
        match elems[i] {
            PatElem::Lit(b) => {
                if pos < hi && text[pos] == b {
                    lemma_match_from_bounds(elems, i + 1, text, hi, pos + 1, open_at, caps);
                }
            },
            PatElem::Cls(c) => {
                if pos < hi && class_matches(c, text[pos]) {
                    lemma_match_from_bounds(elems, i + 1, text, hi, pos + 1, open_at, caps);
                }
            },
            PatElem::Many(c) => {
                lemma_scan_class_bounds(c, text, hi, pos);
                let e = scan_class(c, text, hi, pos);
                if e != pos {
                    lemma_match_from_bounds(elems, i + 1, text, hi, e, open_at, caps);
                }
            },
            PatElem::Open => {
                if open_at is None {
                    lemma_match_from_bounds(elems, i + 1, text, hi, pos, Some(pos), caps);
                }
            },
            PatElem::Close => {
                match open_at {
                    Some(s) => {
                        lemma_match_from_bounds(
                            elems,
                            i + 1,
                            text,
                            hi,
                            pos,
                            None,
                            caps.push((s, pos)),
                        );
                    },
                    None => {},
                }
            },
            PatElem::Backref(_) => {},
        }
    }
}

/// Executable twin of `match_from`.
pub fn match_at(
    elems: &Vec<PatElem>,
    i: usize,
    text: &Vec<u8>,
    hi: usize,
    pos: usize,
    open_at: Option<usize>,
    caps: Vec<(usize, usize)>,
) -> (r: Option<(usize, Vec<(usize, usize)>)>)
    requires
        i <= elems.len(),
        pos <= hi <= text.len(),
    ensures
        match r {
            Some(ecv) => match_from(
                elems@,
                i as int,
                text@,
                hi as int,
                pos as int,
                marker_view(open_at),
                caps_view(caps@),
            ) == Some((ecv.0 as int, caps_view(ecv.1@))) && pos <= ecv.0 <= hi,
            None => match_from(
                elems@,
                i as int,
                text@,
                hi as int,
                pos as int,
                marker_view(open_at),
                caps_view(caps@),
            ) is None,
        },
    decreases elems.len() - i,
{
    let ghost m0 = match_from(
        elems@,
        i as int,
        text@,
        hi as int,
        pos as int,
        marker_view(open_at),
        caps_view(caps@),
    );
    let ghost caps0 = caps_view(caps@);
    if i >= elems.len() {
        match open_at {
            Some(_) => None,
            None => Some((pos, caps)),
        }
    } else {
        match elems[i] {
            PatElem::Lit(b) => if pos < hi && text[pos] == b {
                proof {
                    assert(m0 == match_from(
                        elems@,
                        i + 1,
                        text@,
                        hi as int,
                        pos + 1,
                        marker_view(open_at),
                        caps0,
                    ));
                }
                match_at(elems, i + 1, text, hi, pos + 1, open_at, caps)
            } else {
                None
            },
            PatElem::Cls(c) => if pos < hi && class_matches_exec(c, text[pos]) {
                proof {
                    assert(m0 == match_from(
                        elems@,
                        i + 1,
                        text@,
                        hi as int,
                        pos + 1,
                        marker_view(open_at),
                        caps0,
                    ));
                }
                match_at(elems, i + 1, text, hi, pos + 1, open_at, caps)
            } else {
                None
            },
            PatElem::Many(c) => {
                let e = scan_class_exec(c, text, hi, pos);
                if e == pos {
                    None
                } else {
                    proof {
                        assert(m0 == match_from(
                            elems@,
                            i + 1,
                            text@,
                            hi as int,
                            e as int,
                            marker_view(open_at),
                            caps0,
                        ));
                    }
                    match_at(elems, i + 1, text, hi, e, open_at, caps)
                }
            },
            PatElem::Open => match open_at {
                Some(_) => None,
                None => {
                    proof {
                        assert(m0 == match_from(
                            elems@,
                            i + 1,
                            text@,
                            hi as int,
                            pos as int,
                            Some(pos as int),
                            caps0,
                        ));
                    }
                    match_at(elems, i + 1, text, hi, pos, Some(pos), caps)
                },
            },
            PatElem::Close => match open_at {
                Some(s) => {
                    let mut caps2 = caps;
                    caps2.push((s, pos));
                    proof {
                        assert(caps_view(caps2@) =~= caps0.push((s as int, pos as int)));
                        assert(m0 == match_from(
                            elems@,
                            i + 1,
                            text@,
                            hi as int,
                            pos as int,
                            None,
                            caps_view(caps2@),
                        ));
                    }
                    match_at(elems, i + 1, text, hi, pos, None, caps2)
                },
                None => None,
            },
            PatElem::Backref(_) => None,
        }
    }
}

/// The bytes captured by `cap` of `text`, empty unless the range is valid.
pub open spec fn cap_bytes(text: Seq<u8>, cap: (int, int)) -> Seq<u8> {
    if 0 <= cap.0 <= cap.1 <= text.len() {
        text.subrange(cap.0, cap.1)
    } else {
        Seq::empty()
    }
}

/// The elements a single pattern element contributes after substitution:
/// a backreference becomes the literal bytes its group captured (empty if
/// the group does not exist), everything else stands unchanged.
pub open spec fn subst_elem(e: PatElem, text: Seq<u8>, caps: Seq<(int, int)>) -> Seq<PatElem> {
    match e {
        PatElem::Backref(k) => if k < caps.len() {
            cap_bytes(text, caps[k as int]).map_values(|b: u8| PatElem::Lit(b))
        } else {
            Seq::empty()
        },
        _ => seq![e],
    }
}

/// The first `j` elements of `elems` with every backreference replaced by
/// the bytes the corresponding group captured.
pub open spec fn substitute_upto(
    elems: Seq<PatElem>,
    j: int,
    text: Seq<u8>,
    caps: Seq<(int, int)>,
) -> Seq<PatElem>
    decreases j,
{
    if j <= 0 || j > elems.len() {
        Seq::empty()
    } else {
        substitute_upto(elems, j - 1, text, caps) + subst_elem(elems[j - 1], text, caps)
    }
}

/// `elems` with every backreference replaced by the bytes the
/// corresponding captured group of `caps` holds.
pub open spec fn substitute(elems: Seq<PatElem>, text: Seq<u8>, caps: Seq<(int, int)>) -> Seq<
    PatElem,
> {
    substitute_upto(elems, elems.len() as int, text, caps)
}

/// Executable twin of `substitute`.
pub fn substitute_exec(elems: &Vec<PatElem>, text: &Vec<u8>, caps: &Vec<(usize, usize)>) -> (r:
    Vec<PatElem>)
    ensures
        r@ == substitute(elems@, text@, caps_view(caps@)),
{
    let mut out: Vec<PatElem> = Vec::new();
    let mut j: usize = 0;
    while j < elems.len()
        invariant
            j <= elems.len(),
            out@ == substitute_upto(elems@, j as int, text@, caps_view(caps@)),
        decreases elems.len() - j,
    {
        let e = elems[j];
        match e {
            PatElem::Backref(k) => {
                if k < caps.len() {
                    let (c0, c1) = caps[k];
                    if c0 <= c1 && c1 <= text.len() {
                        let mut p: usize = c0;
                        while p < c1
                            invariant
                                caps@[k as int].0 == c0 && caps@[k as int].1 == c1,
                                c0 <= p <= c1 <= text.len(),
                                k < caps@.len(),
                                out@ == substitute_upto(elems@, j as int, text@, caps_view(caps@))
                                    + cap_bytes(text@, (c0 as int, c1 as int)).subrange(
                                    0,
                                    p - c0,
                                ).map_values(|b: u8| PatElem::Lit(b)),
                            decreases c1 - p,
                        {
                            out.push(PatElem::Lit(text[p]));
                            proof {
                                let cb = cap_bytes(text@, (c0 as int, c1 as int));
                                assert(cb.subrange(0, p + 1 - c0).map_values(
                                    |b: u8| PatElem::Lit(b),
                                ) =~= cb.subrange(0, p - c0).map_values(
                                    |b: u8| PatElem::Lit(b),
                                ).push(PatElem::Lit(text@[p as int])));
                            }
                            p = p + 1;
                        }
                        proof {
                            let cv = caps_view(caps@);
                            let cb = cap_bytes(text@, (c0 as int, c1 as int));
                            assert(cv[k as int] == (c0 as int, c1 as int));
                            assert(cb.subrange(0, c1 - c0) =~= cb);
                            assert(out@ =~= substitute_upto(elems@, j as int + 1, text@, cv));
                        }
                    } else {
                        proof {
                            let cv = caps_view(caps@);
                            assert(cv[k as int] == (c0 as int, c1 as int));
                            assert(cap_bytes(text@, cv[k as int]) =~= Seq::<u8>::empty());
                            assert(subst_elem(elems@[j as int], text@, cv) =~= Seq::<
                                PatElem,
                            >::empty());
                            assert(out@ =~= substitute_upto(elems@, j as int + 1, text@, cv));
                        }
                    }
                } else {
                    proof {
                        let cv = caps_view(caps@);
                        assert(out@ =~= substitute_upto(elems@, j as int + 1, text@, cv));
                    }
                }
            },
            _ => {
                out.push(e);
                proof {
                    let cv = caps_view(caps@);
                    assert(subst_elem(elems@[j as int], text@, cv) =~= seq![elems@[j as int]]);
                    assert(out@ =~= substitute_upto(elems@, j as int + 1, text@, cv));
                }
            },
        }
        j = j + 1;
    }
    proof {
        assert(substitute_upto(elems@, elems@.len() as int, text@, caps_view(caps@)) == substitute(
            elems@,
            text@,
            caps_view(caps@),
        ));
    }
    out
}

} // verus!
