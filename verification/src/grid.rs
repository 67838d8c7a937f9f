//! A regular grid: the size of each axis, the number of grid points, and the
//! place of each grid point in file order, where the first axis varies
//! fastest.
use vstd::prelude::*;

verus! {

/// The product of the sizes: the number of grid points.
pub open spec fn product(dimensions: Seq<usize>) -> nat
    decreases dimensions.len(),
{
    if dimensions.len() == 0 {
        1
    } else {
        (product(dimensions.drop_last()) * dimensions.last()) as nat
    }
}

/// Whether every size is at least one.
pub open spec fn all_positive(dimensions: Seq<usize>) -> bool {
    forall|i: int| 0 <= i < dimensions.len() ==> 0 < #[trigger] dimensions[i]
}

/// Whether `position` names a grid point: it has no more coordinates than
/// the grid has axes, and each lies on its axis. Axes that it leaves out are
/// taken at zero.
pub open spec fn inside(dimensions: Seq<usize>, position: Seq<usize>) -> bool {
    &&& position.len() <= dimensions.len()
    &&& forall|i: int| 0 <= i < position.len() ==> #[trigger] position[i] < dimensions[i]
}

/// The place of a grid point in file order: each coordinate counts as many
/// places as there are grid points along the axes before it.
pub open spec fn offset(dimensions: Seq<usize>, position: Seq<usize>) -> nat
    decreases position.len(),
{
    if position.len() == 0 {
        0
    } else {
        (offset(dimensions, position.drop_last()) + position.last() * product(
            dimensions.take(position.len() - 1),
        )) as nat
    }
}

/// One more size multiplies the product by it.
pub proof fn lemma_product_step(dimensions: Seq<usize>, n: int)
    requires
        0 <= n < dimensions.len(),
    ensures
        product(dimensions.take(n + 1)) == product(dimensions.take(n)) * dimensions[n],
{
    assert(dimensions.take(n + 1).drop_last() == dimensions.take(n));
}

/// The product of positive sizes is positive.
pub proof fn lemma_product_positive(dimensions: Seq<usize>)
    requires
        all_positive(dimensions),
    ensures
        1 <= product(dimensions),
    decreases dimensions.len(),
{
    if dimensions.len() > 0 {
        lemma_product_positive(dimensions.drop_last());
        let a = product(dimensions.drop_last()) as int;
        let d = dimensions.last() as int;
        assert(1 <= a * d) by (nonlinear_arith)
            requires
                1 <= a,
                1 <= d,
        ;
    }
}

/// A grid with an axis of size zero has no grid point.
pub proof fn lemma_product_zero(dimensions: Seq<usize>, i: int)
    requires
        0 <= i < dimensions.len(),
        dimensions[i] == 0,
    ensures
        product(dimensions) == 0,
    decreases dimensions.len(),
{
    let a = product(dimensions.drop_last()) as int;
    let d = dimensions.last() as int;
    if i < dimensions.len() - 1 {
        lemma_product_zero(dimensions.drop_last(), i);
    }
    assert(a * d == 0) by (nonlinear_arith)
        requires
            a == 0 || d == 0,
    ;
}

/// The product of positive sizes is at least the product of the first `n`.
pub proof fn lemma_product_prefix(dimensions: Seq<usize>, n: int)
    requires
        all_positive(dimensions),
        0 <= n <= dimensions.len(),
    ensures
        1 <= product(dimensions.take(n)) <= product(dimensions),
    decreases dimensions.len() - n,
{
    if n < dimensions.len() {
        lemma_product_prefix(dimensions, n + 1);
        lemma_product_step(dimensions, n);
        let a = product(dimensions.take(n)) as int;
        let d = dimensions[n] as int;
        assert(a <= a * d) by (nonlinear_arith)
            requires
                1 <= d,
                0 <= a,
        ;
        if a < 1 {
            assert(a * d == 0) by (nonlinear_arith)
                requires
                    a == 0,
            ;
        }
    } else {
        assert(dimensions.take(n) == dimensions);
        lemma_product_positive(dimensions);
    }
}

/// A grid point's place in file order is below the number of grid points
/// that its coordinates span.
pub proof fn lemma_offset_bound(dimensions: Seq<usize>, position: Seq<usize>)
    requires
        inside(dimensions, position),
    ensures
        offset(dimensions, position) < product(dimensions.take(position.len() as int)),
    decreases position.len(),
{
    let n = position.len() as int;
    if n == 0 {
        assert(dimensions.take(0) == Seq::<usize>::empty());
    } else {
        let shorter = position.drop_last();
        assert(inside(dimensions, shorter)) by {
            assert forall|i: int| 0 <= i < shorter.len() implies #[trigger] shorter[i]
                < dimensions[i] by {
                assert(shorter[i] == position[i]);
            }
        }
        lemma_offset_bound(dimensions, shorter);
        lemma_product_step(dimensions, n - 1);
        let stride = product(dimensions.take(n - 1)) as int;
        let v = position.last() as int;
        let d = dimensions[n - 1] as int;
        assert(position[n - 1] < dimensions[n - 1]);
        assert(v * stride + stride <= stride * d) by (nonlinear_arith)
            requires
                0 <= v < d,
                0 <= stride,
        ;
    }
}

/// The place of the grid point `(i, j, k)`: `i` places, and `j` rows of as
/// many places as the first axis is long, and `k` planes of as many rows as
/// the second axis is long.
pub proof fn lemma_offset_of_three(dimensions: Seq<usize>, i: usize, j: usize, k: usize)
    requires
        dimensions.len() >= 3,
    ensures
        offset(dimensions, seq![i, j, k]) == i + dimensions[0] * j + dimensions[0] * dimensions[1]
            * k,
{
    let one = seq![i];
    let two = seq![i, j];
    let three = seq![i, j, k];
    assert(one.drop_last() =~= Seq::<usize>::empty());
    assert(two.drop_last() =~= one);
    assert(three.drop_last() =~= two);
    assert(dimensions.take(0) =~= Seq::<usize>::empty());
    lemma_product_step(dimensions, 0);
    lemma_product_step(dimensions, 1);
    let first = dimensions[0] as int;
    let second = dimensions[1] as int;
    assert(product(dimensions.take(0)) == 1);
    assert(product(dimensions.take(1)) == first) by (nonlinear_arith)
        requires
            product(dimensions.take(1)) == product(dimensions.take(0)) * first,
            product(dimensions.take(0)) == 1,
    ;
    assert(offset(dimensions, one.drop_last()) == 0);
    assert(offset(dimensions, one) == 0 + one.last() * product(dimensions.take(0)));
    assert(offset(dimensions, one) == i) by (nonlinear_arith)
        requires
            offset(dimensions, one) == 0 + i * product(dimensions.take(0)),
            product(dimensions.take(0)) == 1,
    ;
    assert(offset(dimensions, two) == offset(dimensions, one) + two.last() * product(
        dimensions.take(1),
    ));
    assert(offset(dimensions, three) == offset(dimensions, two) + three.last() * product(
        dimensions.take(2),
    ));
    assert(j * product(dimensions.take(1)) == first * j) by (nonlinear_arith)
        requires
            product(dimensions.take(1)) == first,
    ;
    assert(k * product(dimensions.take(2)) == first * second * k) by (nonlinear_arith)
        requires
            product(dimensions.take(2)) == product(dimensions.take(1)) * second,
            product(dimensions.take(1)) == first,
    ;
}

/// Two grid points with the same place in file order are the same.
pub proof fn lemma_offset_is_one_to_one(
    dimensions: Seq<usize>,
    p: Seq<usize>,
    q: Seq<usize>,
)
    requires
        inside(dimensions, p),
        inside(dimensions, q),
        p.len() == q.len(),
        offset(dimensions, p) == offset(dimensions, q),
    ensures
        p == q,
    decreases p.len(),
{
    if p.len() > 0 {
        let n = p.len() as int;
        let front_p = p.drop_last();
        let front_q = q.drop_last();
        assert(inside(dimensions, front_p)) by {
            assert forall|i: int| 0 <= i < front_p.len() implies #[trigger] front_p[i]
                < dimensions[i] by {
                assert(front_p[i] == p[i]);
            }
        }
        assert(inside(dimensions, front_q)) by {
            assert forall|i: int| 0 <= i < front_q.len() implies #[trigger] front_q[i]
                < dimensions[i] by {
                assert(front_q[i] == q[i]);
            }
        }
        lemma_offset_bound(dimensions, front_p);
        lemma_offset_bound(dimensions, front_q);
        let stride = product(dimensions.take(n - 1)) as int;
        let a = offset(dimensions, front_p) as int;
        let b = offset(dimensions, front_q) as int;
        let x = p.last() as int;
        let y = q.last() as int;
        assert(x == y) by (nonlinear_arith)
            requires
                a + x * stride == b + y * stride,
                0 <= a < stride,
                0 <= b < stride,
        ;
        assert(a == b) by (nonlinear_arith)
            requires
                a + x * stride == b + y * stride,
                x == y,
        ;
        lemma_offset_is_one_to_one(dimensions, front_p, front_q);
        assert(p =~= front_p.push(p.last()));
        assert(q =~= front_q.push(q.last()));
    } else {
        assert(p =~= q);
    }
}

/// The number of grid points, unless it is too large for the machine word.
pub fn volume(dimensions: &Vec<usize>) -> (r: Option<usize>)
    ensures
        match r {
            Some(v) => v == product(dimensions@),
            None => product(dimensions@) > usize::MAX,
        },
{
    let mut i: usize = 0;
    while i < dimensions.len()
        invariant
            i <= dimensions.len(),
            forall|j: int| 0 <= j < i ==> 0 < #[trigger] dimensions@[j],
        decreases dimensions.len() - i,
    {
        if dimensions[i] == 0 {
            proof {
                lemma_product_zero(dimensions@, i as int);
            }
            return Some(0);
        }
        i = i + 1;
    }
    let mut total: usize = 1;
    let mut i: usize = 0;
    proof {
        assert(dimensions@.take(0) == Seq::<usize>::empty());
    }
    while i < dimensions.len()
        invariant
            i <= dimensions.len(),
            all_positive(dimensions@),
            total == product(dimensions@.take(i as int)),
        decreases dimensions.len() - i,
    {
        proof {
            lemma_product_step(dimensions@, i as int);
            lemma_product_prefix(dimensions@, i + 1);
        }
        match total.checked_mul(dimensions[i]) {
            Some(next) => {
                total = next;
            },
            None => {
                return None;
            },
        }
        i = i + 1;
    }
    proof {
        assert(dimensions@.take(dimensions.len() as int) == dimensions@);
    }
    Some(total)
}

} // verus!
