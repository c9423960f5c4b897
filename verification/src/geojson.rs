//! GeoJSON repair and geometry assembly.
//!
//! Documents from some exporters carry an empty `type` field or CSV-style
//! doubled quotes. The text repair below fixes both before the document is
//! parsed; the empty-type fix must run first, or the doubled-quote fix
//! would turn the empty string into a lone quote. Parsing the repaired JSON
//! is the JSON reader's work, done around the library; the assembly of the
//! parsed coordinate lists into polygons is verified here.

use vstd::prelude::*;
use crate::geom::{CoordFx, RingFx, PolygonFx, MultiPolygonFx};
use crate::text::{str_to_chars, string_from_chars};

verus! {

/// The text with every occurrence of `pat` replaced by `rep`, leftmost
/// first, without overlap.
pub open spec fn replace_seq(s: Seq<char>, pat: Seq<char>, rep: Seq<char>) -> Seq<char>
    decreases s.len(),
{
    if pat.len() == 0 || s.len() < pat.len() {
        s
    } else if s.take(pat.len() as int) == pat {
        rep + replace_seq(s.skip(pat.len() as int), pat, rep)
    } else {
        seq![s[0]] + replace_seq(s.drop_first(), pat, rep)
    }
}

/// True when `pat` occurs at position `i`.
fn matches_at(v: &Vec<char>, i: usize, pat: &Vec<char>) -> (r: bool)
    requires
        i + pat@.len() <= v@.len(),
    ensures
        r <==> v@.subrange(i as int, i + pat@.len()) == pat@,
{
    let vlen = v.len();
    let mut k: usize = 0;
    while k < pat.len()
        invariant
            0 <= k <= pat@.len(),
            i + pat@.len() <= v@.len(),
            vlen == v@.len(),
            forall|j: int| 0 <= j < k ==> v@[i + j] == pat@[j],
        decreases pat@.len() - k,
    {
        if v[i + k] != pat[k] {
            proof {
                assert(v@.subrange(i as int, i + pat@.len())[k as int] != pat@[k as int]);
            }
            return false;
        }
        k += 1;
    }
    proof {
        assert(v@.subrange(i as int, i + pat@.len()) =~= pat@);
    }
    true
}

/// Replaces every occurrence of `pat` by `rep`, leftmost first, without
/// overlap.
fn replace_chars(v: &Vec<char>, pat: &Vec<char>, rep: &Vec<char>) -> (r: Vec<char>)
    requires
        pat@.len() >= 1,
    ensures
        r@ == replace_seq(v@, pat@, rep@),
{
    let mut out: Vec<char> = Vec::new();
    let mut i: usize = 0;
    let n = v.len();
    proof {
        assert(v@.skip(0) =~= v@);
        assert(out@ + replace_seq(v@.skip(0), pat@, rep@) =~= replace_seq(v@, pat@, rep@));
    }
    while i < n
        invariant
            0 <= i <= n,
            n == v@.len(),
            pat@.len() >= 1,
            replace_seq(v@, pat@, rep@) =~= out@ + replace_seq(v@.skip(i as int), pat@, rep@),
        decreases n - i,
    {
        let ghost rest = v@.skip(i as int);
        if pat.len() <= n - i && matches_at(v, i, pat) {
            proof {
                assert(rest.take(pat@.len() as int) =~= v@.subrange(i as int, i + pat@.len()));
                assert(rest.skip(pat@.len() as int) =~= v@.skip(i + pat@.len()));
                assert(replace_seq(rest, pat@, rep@) == rep@ + replace_seq(
                    v@.skip(i + pat@.len()),
                    pat@,
                    rep@,
                ));
            }
            let mut k: usize = 0;
            let ghost mid = out@;
            while k < rep.len()
                invariant
                    0 <= k <= rep@.len(),
                    out@ =~= mid + rep@.take(k as int),
                decreases rep@.len() - k,
            {
                out.push(rep[k]);
                k += 1;
            }
            proof {
                assert(out@ =~= mid + rep@);
            }
            i += pat.len();
        } else {
            proof {
                assert(rest[0] == v@[i as int]);
                assert(rest.drop_first() =~= v@.skip(i + 1));
                if i + pat@.len() <= n {
                    assert(rest.take(pat@.len() as int) =~= v@.subrange(i as int, i + pat@.len()));
                } else {
                    assert(rest.len() < pat@.len());
                }
            }
            out.push(v[i]);
            i += 1;
        }
    }
    proof {
        assert(v@.skip(n as int) =~= Seq::<char>::empty());
        assert(out@ + replace_seq(v@.skip(n as int), pat@, rep@) =~= out@);
    }
    out
}

/// The repaired text of a GeoJSON document: empty `type` fields become
/// `MultiPolygon`, in both spacings, and doubled quotes collapse to one.
pub open spec fn preprocessed(s: Seq<char>) -> Seq<char> {
    replace_seq(
        replace_seq(
            replace_seq(s, "\"type\":\"\""@, "\"type\":\"MultiPolygon\""@),
            "\"type\": \"\""@,
            "\"type\": \"MultiPolygon\""@,
        ),
        "\"\""@,
        "\""@,
    )
}

/// Repairs common malformations before the document is parsed: an empty
/// `type` is read as `MultiPolygon`, and CSV-style doubled quotes are
/// undone. The empty-type fix runs first on purpose.
pub fn preprocess_geojson(content: &str) -> (r: String)
    ensures
        r@ == preprocessed(content@),
{
    let chars = str_to_chars(content);
    let pat1 = str_to_chars("\"type\":\"\"");
    let rep1 = str_to_chars("\"type\":\"MultiPolygon\"");
    let pat2 = str_to_chars("\"type\": \"\"");
    let rep2 = str_to_chars("\"type\": \"MultiPolygon\"");
    let pat3 = str_to_chars("\"\"");
    let rep3 = str_to_chars("\"");
    proof {
        reveal_strlit("\"type\":\"\"");
        reveal_strlit("\"type\": \"\"");
        reveal_strlit("\"\"");
    }
    let s1 = replace_chars(&chars, &pat1, &rep1);
    let s2 = replace_chars(&s1, &pat2, &rep2);
    let s3 = replace_chars(&s2, &pat3, &rep3);
    string_from_chars(&s3)
}

/// Builds one ring from parsed vertices; an empty list is no ring.
pub fn linestring_from_coords(points: Vec<CoordFx>) -> (r: Option<RingFx>)
    ensures
        r is Some <==> points@.len() > 0,
        r matches Some(ring) ==> ring.coords@ == points@,
{
    if points.len() == 0 {
        None
    } else {
        Some(RingFx { coords: points })
    }
}

/// Builds one polygon from its rings: the first is the exterior, the rest
/// are holes; empty hole lists are dropped, an absent or empty exterior
/// drops the polygon.
pub fn polygon_from_coords(rings: Vec<Vec<CoordFx>>) -> (r: Option<PolygonFx>)
    ensures
        r is Some <==> rings@.len() > 0 && rings@[0]@.len() > 0,
        r matches Some(p) ==> {
            &&& p.exterior.coords@ == rings@[0]@
            &&& p.interiors@.map_values(|h: RingFx| h.coords@) == rings@.skip(1).map_values(
                |h: Vec<CoordFx>| h@,
            ).filter(|h: Seq<CoordFx>| h.len() > 0)
        },
{
    let mut it = rings;
    if it.len() == 0 {
        return None;
    }
    let ghost rs = it@;
    let mut rest = it.split_off(1);
    let first = match it.pop() {
        Option::Some(f) => f,
        Option::None => {
            return None;
        },
    };
    proof {
        assert(rest@ =~= rs.skip(1));
        assert(first@ == rs[0]@);
    }
    if first.len() == 0 {
        return None;
    }
    let exterior = RingFx { coords: first };
    let mut interiors: Vec<RingFx> = Vec::new();
    let mut i: usize = 0;
    let ghost tail = rest@.map_values(|h: Vec<CoordFx>| h@);
    while i < rest.len()
        invariant
            0 <= i <= rest@.len(),
            tail == rest@.map_values(|h: Vec<CoordFx>| h@),
            interiors@.map_values(|h: RingFx| h.coords@) =~= tail.take(i as int).filter(
                |h: Seq<CoordFx>| h.len() > 0,
            ),
        decreases rest@.len() - i,
    {
        proof {
            broadcast use Seq::lemma_filter_push;

            assert(tail.take(i + 1) =~= tail.take(i as int).push(tail[i as int]));
        }
        if rest[i].len() > 0 {
            let ghost before = interiors@;
            let ring = RingFx { coords: rest[i].clone() };
            proof {
                assert(ring.coords@ == rest@[i as int]@);
            }
            interiors.push(ring);
            proof {
                assert(interiors@.map_values(|h: RingFx| h.coords@) =~= before.map_values(
                    |h: RingFx| h.coords@,
                ).push(tail[i as int]));
            }
        }
        i += 1;
    }
    proof {
        assert(tail.take(tail.len() as int) =~= tail);
    }
    Some(PolygonFx { exterior, interiors })
}

/// Builds a multipolygon from assembled polygons; none at all is no
/// geometry.
pub fn multipolygon_from_polys(polys: Vec<PolygonFx>) -> (r: Option<MultiPolygonFx>)
    ensures
        r is Some <==> polys@.len() > 0,
        r matches Some(mp) ==> mp.polygons@ == polys@,
{
    if polys.len() == 0 {
        None
    } else {
        Some(MultiPolygonFx { polygons: polys })
    }
}

} // verus!
