use vstd::prelude::*;
use crate::data::d4::{D4, compose_spec, lemma_identity_inverse, lemma_compose_assoc};
use crate::data::outline::{cell_image, outline_image, lemma_cell_image_compose};
use crate::data::tight_poly::{TightPoly, order_key, lemma_image_compose, lemma_cell_image_in_box, lemma_same_rows};
use crate::data::lex::lemma_lex_irreflexive;

verus! {

/// If `q` is the image of `p` under `d`, then `p` is the image of `q` under the inverse of `d`.
pub proof fn lemma_image_inverse(p: TightPoly, d: D4, q: TightPoly)
    requires
        p.is_image(d, q),
    ensures
        q.is_image(d.inverse_spec(), p),
{
    let (h, w) = (p.h() as int, p.w() as int);
    let (h2, w2) = outline_image(d, h, w);
    let di = d.inverse_spec();
    lemma_identity_inverse(d);
    assert(outline_image(di, h2, w2) == (h, w));
    assert forall|a: int, b: int| 0 <= a < q.h() && 0 <= b < q.w() implies ({
        let (x, y) = cell_image(di, q.h() as int, q.w() as int, a, b);
        p.cell(x, y) == #[trigger] q.cell(a, b)
    }) by {
        let (x, y) = cell_image(di, h2, w2, a, b);
        lemma_cell_image_in_box(di, h2, w2, a, b);
        lemma_cell_image_compose(d, di, h2, w2, a, b);
        assert(cell_image(D4::I, h2, w2, a, b) == (a, b));
        assert(cell_image(d, h, w, x, y) == (a, b));
        assert(p.cell(x, y) == q.cell(a, b));
    }
}

/// Two consistent images of a polyomino under the same symmetry have the same key.
pub proof fn lemma_image_unique(p: TightPoly, g: D4, q: TightPoly, r: TightPoly)
    requires
        p.is_image(g, q),
        p.is_image(g, r),
        q.wf(),
        r.wf(),
    ensures
        order_key(q) == order_key(r),
{
    lemma_image_inverse(p, g, q);
    lemma_image_inverse(p, g, r);
    assert forall|a: int, b: int| #[trigger] q.cell(a, b) == r.cell(a, b) by {
        if 0 <= a < q.h() && 0 <= b < q.w() {
            let (x, y) = cell_image(g.inverse_spec(), q.h() as int, q.w() as int, a, b);
            assert(p.cell(x, y) == q.cell(a, b));
            assert(p.cell(x, y) == r.cell(a, b));
        }
    }
    lemma_same_rows(q, r);
}

/// Composing with `a` and then with its inverse changes nothing, on either side.
proof fn lemma_cancel(a: D4, x: D4)
    ensures
        compose_spec(a, compose_spec(a.inverse_spec(), x)) == x,
        compose_spec(a.inverse_spec(), compose_spec(a, x)) == x,
{
    lemma_compose_assoc(a, a.inverse_spec(), x);
    lemma_compose_assoc(a.inverse_spec(), a, x);
    lemma_identity_inverse(a);
    lemma_identity_inverse(x);
}

/// The symmetries that take `p` onto `q`.
pub open spec fn image_set(p: TightPoly, q: TightPoly) -> Set<D4> {
    Set::new(|g: D4| p.is_image(g, q))
}

/// The eight symmetries.
pub open spec fn all_d4() -> Set<D4> {
    set![D4::I, D4::R1, D4::R2, D4::R3, D4::S0, D4::S1, D4::S2, D4::S3]
}

proof fn lemma_all_d4()
    ensures
        all_d4().finite(),
        all_d4().len() == 8,
        forall|g: D4| #[trigger] all_d4().contains(g),
{
    assert forall|g: D4| #[trigger] all_d4().contains(g) by {
        match g {
            D4::I => {},
            D4::R1 => {},
            D4::R2 => {},
            D4::R3 => {},
            D4::S0 => {},
            D4::S1 => {},
            D4::S2 => {},
            D4::S3 => {},
        }
    }
}

proof fn lemma_image_set_finite(p: TightPoly, q: TightPoly)
    ensures
        image_set(p, q).finite(),
        image_set(p, q).len() <= 8,
{
    lemma_all_d4();
    vstd::set_lib::lemma_len_subset(image_set(p, q), all_d4());
}

/// Two images of `p` are reached by as many symmetries each: `h` goes to `gr * g0^-1 * h`.
proof fn lemma_coset_size(p: TightPoly, q: TightPoly, r: TightPoly, g0: D4, gr: D4)
    requires
        p.is_image(g0, q),
        p.is_image(gr, r),
    ensures
        image_set(p, q).len() == image_set(p, r).len(),
{
    let a = image_set(p, q);
    let b = image_set(p, r);
    let f = |h: D4| compose_spec(gr, compose_spec(g0.inverse_spec(), h));
    lemma_image_set_finite(p, q);
    lemma_image_inverse(p, g0, q);
    lemma_image_inverse(p, gr, r);
    assert(vstd::relations::injective_on(f, a)) by {
        assert forall|h1: D4, h2: D4| a.contains(h1) && a.contains(h2) && #[trigger] f(h1) == #[trigger] f(h2) implies h1 == h2 by {
            lemma_cancel(gr, compose_spec(g0.inverse_spec(), h1));
            lemma_cancel(gr, compose_spec(g0.inverse_spec(), h2));
            lemma_identity_inverse(gr);
            assert(gr.inverse_spec().inverse_spec() == gr);
            lemma_cancel(g0, h1);
            lemma_cancel(g0, h2);
            assert(g0.inverse_spec().inverse_spec() == g0);
            lemma_cancel(g0.inverse_spec(), h1);
            lemma_cancel(g0.inverse_spec(), h2);
            lemma_cancel(gr.inverse_spec(), compose_spec(g0.inverse_spec(), h1));
            lemma_cancel(gr.inverse_spec(), compose_spec(g0.inverse_spec(), h2));
        }
    }
    assert(a.map(f) =~= b) by {
        assert forall|k: D4| a.map(f).contains(k) implies b.contains(k) by {
            let h = choose|h: D4| a.contains(h) && f(h) == k;
            lemma_image_compose(p, q, p, h, g0.inverse_spec());
            lemma_image_compose(p, p, r, compose_spec(g0.inverse_spec(), h), gr);
        }
        assert forall|k: D4| b.contains(k) implies a.map(f).contains(k) by {
            let h = compose_spec(g0, compose_spec(gr.inverse_spec(), k));
            lemma_image_compose(p, r, p, k, gr.inverse_spec());
            lemma_image_compose(p, p, q, compose_spec(gr.inverse_spec(), k), g0);
            assert(a.contains(h));
            lemma_cancel(g0, compose_spec(gr.inverse_spec(), k));
            lemma_cancel(gr, k);
            assert(f(h) == k);
        }
    }
    vstd::set_lib::lemma_map_size(a, b, f);
}

/// The symmetries that take `p` onto one of the first `n` polyominoes of the list.
pub open spec fn covered(p: TightPoly, list: Seq<TightPoly>, n: int) -> Set<D4>
    decreases n,
{
    if n <= 0 {
        Set::empty()
    } else {
        covered(p, list, n - 1) + image_set(p, list[n - 1])
    }
}

proof fn lemma_covered(p: TightPoly, list: Seq<TightPoly>, n: int, m: nat)
    requires
        p.is_rot_rev_list(list),
        0 <= n <= list.len(),
        forall|i: int| 0 <= i < list.len() ==> #[trigger] image_set(p, list[i]).len() == m,
    ensures
        covered(p, list, n).finite(),
        covered(p, list, n).len() == n * m,
        forall|g: D4| #[trigger] covered(p, list, n).contains(g) <==> exists|j: int| 0 <= j < n && p.is_image(g, #[trigger] list[j]),
    decreases n,
{
    if n > 0 {
        lemma_covered(p, list, n - 1, m);
        let prev = covered(p, list, n - 1);
        let last = image_set(p, list[n - 1]);
        lemma_image_set_finite(p, list[n - 1]);
        assert(prev.disjoint(last)) by {
            assert forall|g: D4| prev.contains(g) implies !last.contains(g) by {
                let j = choose|j: int| 0 <= j < n - 1 && p.is_image(g, #[trigger] list[j]);
                if last.contains(g) {
                    lemma_image_unique(p, g, list[j], list[n - 1]);
                    lemma_lex_irreflexive(order_key(list[j]));
                    assert(crate::data::lex::lex_lt(order_key(list[j]), order_key(list[n - 1])));
                }
            }
        }
        vstd::set_lib::lemma_set_disjoint_lens(prev, last);
        assert((n - 1) * m + m == n * m) by (nonlinear_arith);
        assert forall|g: D4| #[trigger] covered(p, list, n).contains(g) <==> exists|j: int| 0 <= j < n && p.is_image(g, #[trigger] list[j]) by {
            if covered(p, list, n).contains(g) {
                if last.contains(g) {
                    assert(p.is_image(g, list[n - 1]));
                }
            }
            if exists|j: int| 0 <= j < n && p.is_image(g, #[trigger] list[j]) {
                let j = choose|j: int| 0 <= j < n && p.is_image(g, #[trigger] list[j]);
                if j == n - 1 {
                    assert(last.contains(g));
                } else {
                    assert(prev.contains(g));
                }
            }
        }
    }
}

/// The distinct images of a polyomino under the eight symmetries of its box number 1, 2, 4
/// or 8: each image is reached by as many symmetries as any other, and every symmetry reaches
/// exactly one of them.
pub proof fn lemma_rot_rev_count(p: TightPoly, list: Seq<TightPoly>)
    requires
        p.is_rot_rev_list(list),
    ensures
        list.len() == 1 || list.len() == 2 || list.len() == 4 || list.len() == 8,
{
    assert(p.has_image(D4::I, list));
    assert(list.len() >= 1);
    assert(p.has_some_image(list[0]));
    let g0 = choose|d: D4| p.is_image(d, list[0]);
    let m = image_set(p, list[0]).len();
    assert forall|i: int| 0 <= i < list.len() implies #[trigger] image_set(p, list[i]).len() == m by {
        assert(p.has_some_image(list[i]));
        let gi = choose|d: D4| p.is_image(d, list[i]);
        lemma_coset_size(p, list[0], list[i], g0, gi);
    }
    lemma_covered(p, list, list.len() as int, m);
    lemma_all_d4();
    assert(covered(p, list, list.len() as int) =~= all_d4()) by {
        assert forall|g: D4| #[trigger] all_d4().contains(g) implies covered(p, list, list.len() as int).contains(g) by {
            assert(p.has_image(g, list));
        }
    }
    lemma_image_set_finite(p, list[0]);
    assert(image_set(p, list[0]).contains(g0));
    assert(m >= 1);
    let n = list.len() as int;
    assert(n * m == 8);
    assert(n <= 8) by (nonlinear_arith)
        requires
            n * m == 8,
            m >= 1,
            n >= 1,
    ;
    if n == 3 || n == 5 || n == 6 || n == 7 {
        assert(false) by (nonlinear_arith)
            requires
                n * m == 8,
                n == 3 || n == 5 || n == 6 || n == 7,
        ;
    }
}

} // verus!
