//! A sum of products of multilinear polynomials, where a polynomial that
//! occurs in several products is kept once.

use crate::field::{canonical, fval, Field, FieldCore};
use crate::polynomial::multivariate::dense::{fix_many, DenseMultilinearExtension};
use crate::transformation::ntt_table::vals;
use vstd::prelude::*;

verus! {

/// The number of variables and the largest number of factors of a sum of products.
#[derive(Clone, Copy, Debug)]
pub struct PolynomialInfo {
    /// The largest number of factors of a product.
    pub max_multiplicands: usize,
    /// The number of variables.
    pub num_variables: usize,
}

/// A sum of products of multilinear polynomials, each product with a
/// coefficient. The polynomials are kept in a registry; a product is the
/// list of the places of its factors in the registry. Every polynomial is
/// known by a handle, and a handle is registered once.
pub struct ListOfProductsOfPolynomials<F: FieldCore> {
    /// The largest number of factors of a product.
    pub max_multiplicands: usize,
    /// The number of variables.
    pub num_variables: usize,
    /// The products: a coefficient, and the places of the factors in the registry.
    pub products: Vec<(F, Vec<usize>)>,
    /// The registry of the polynomials.
    pub flattened_ml_extensions: Vec<DenseMultilinearExtension<F>>,
    /// The handle of every polynomial of the registry.
    pub handles: Vec<u64>,
}

/// The place of the handle `h` among the first `k` handles, if it is there.
pub open spec fn place_of(handles: Seq<u64>, h: u64, k: nat) -> Option<int>
    decreases k,
{
    if k == 0 {
        None
    } else if handles[k - 1] == h {
        Some(k - 1)
    } else {
        place_of(handles, h, (k - 1) as nat)
    }
}

/// The product of the values of the factors `places[0..k]` times `c`, modulo `p`.
pub open spec fn product_value(c: int, places: Seq<usize>, values: Seq<int>, k: nat, p: int) -> int
    decreases k,
{
    if k == 0 {
        c
    } else {
        (product_value(c, places, values, (k - 1) as nat, p) * values[places[k - 1] as int]) % p
    }
}

/// The sum of the first `k` products, modulo `p`.
pub open spec fn sum_value<F: FieldCore>(
    products: Seq<(F, Vec<usize>)>,
    values: Seq<int>,
    k: nat,
    p: int,
) -> int
    decreases k,
{
    if k == 0 {
        0
    } else {
        (sum_value(products, values, (k - 1) as nat, p) + product_value(
            fval(products[k - 1].0) as int,
            products[k - 1].1@,
            values,
            products[k - 1].1@.len(),
            p,
        )) % p
    }
}

/// The place `j` is the first of the product at which the handle `h` stands.
pub open spec fn is_first<F: FieldCore>(
    product: Seq<(u64, DenseMultilinearExtension<F>)>,
    j: int,
    h: u64,
) -> bool {
    &&& 0 <= j < product.len()
    &&& product[j].0 == h
    &&& forall|l: int| 0 <= l < j ==> (#[trigger] product[l]).0 != h
}

impl<F: FieldCore> ListOfProductsOfPolynomials<F> {
    /// Every polynomial of the registry has a handle and the number of
    /// variables of the sum; no handle occurs twice; and every factor of
    /// a product is a place of the registry.
    pub open spec fn wf(self) -> bool {
        &&& self.num_variables <= 30
        &&& self.handles@.len() == self.flattened_ml_extensions@.len()
        &&& forall|i: int, j: int|
            0 <= i < j < self.handles@.len() ==> self.handles@[i]
                != self.handles@[j]
        &&& forall|i: int|
            0 <= i < self.flattened_ml_extensions@.len() ==> (
            #[trigger] self.flattened_ml_extensions@[i]).wf() && self.flattened_ml_extensions@[i].num_vars
                == self.num_variables
        &&& forall|k: int, i: int|
            0 <= k < self.products@.len() && 0 <= i < self.products@[k].1@.len()
                ==> #[trigger] self.products@[k].1@[i] < self.flattened_ml_extensions@.len()
    }

    /// The number of variables and the largest number of factors.
    pub fn info(&self) -> (info: PolynomialInfo)
        ensures
            info.max_multiplicands == self.max_multiplicands,
            info.num_variables == self.num_variables,
    {
        PolynomialInfo {
            max_multiplicands: self.max_multiplicands,
            num_variables: self.num_variables,
        }
    }

    /// The empty sum of `num_variables` variables.
    pub fn new(num_variables: usize) -> (r: Self)
        requires
            num_variables <= 30,
        ensures
            r.wf(),
            r.num_variables == num_variables,
            r.max_multiplicands == 0,
            r.products@.len() == 0,
            r.flattened_ml_extensions@.len() == 0,
    {
        ListOfProductsOfPolynomials {
            max_multiplicands: 0,
            num_variables,
            products: Vec::new(),
            flattened_ml_extensions: Vec::new(),
            handles: Vec::new(),
        }
    }

    /// The place of a handle in the registry, if it is registered.
    fn find(&self, handle: u64) -> (r: Option<usize>)
        ensures
            match r {
                Some(i) => i < self.handles@.len() && self.handles@[i as int]
                    == handle,
                None => forall|i: int|
                    0 <= i < self.handles@.len() ==> self.handles@[i] != handle,
            },
    {
        let n = self.handles.len();
        let mut i: usize = 0;
        while i < n
            invariant
                i <= n,
                n == self.handles@.len(),
                forall|j: int| 0 <= j < i ==> self.handles@[j] != handle,
            decreases n - i,
        {
            if self.handles[i] == handle {
                return Some(i);
            }
            i = i + 1;
        }
        None
    }

    /// Adds the product of the polynomials `product`, times `coefficient`.
    /// Every polynomial comes with its handle; a polynomial whose handle
    /// is registered already is not kept again, and the product refers to
    /// the one that is registered. A handle that is new is registered
    /// with the polynomial that comes with it first in the product. The
    /// product is not empty, and its polynomials have the number of
    /// variables of the sum.
    pub fn add_product(
        &mut self,
        product: Vec<(u64, DenseMultilinearExtension<F>)>,
        coefficient: F,
    )
        requires
            old(self).wf(),
            product@.len() > 0,
            forall|i: int|
                0 <= i < product@.len() ==> (#[trigger] product@[i]).1.wf() && product@[i].1.num_vars
                    == old(self).num_variables,
        ensures
            final(self).wf(),
            final(self).num_variables == old(self).num_variables,
            final(self).max_multiplicands == (if old(self).max_multiplicands >= product@.len() {
                old(self).max_multiplicands
            } else {
                product@.len() as usize
            }),
            final(self).products@.len() == old(self).products@.len() + 1,
            final(self).products@.take(old(self).products@.len() as int) == old(self).products@,
            final(self).products@.last().0 == coefficient,
            final(self).products@.last().1@.len() == product@.len(),
            forall|i: int|
                0 <= i < product@.len() ==> final(self).handles@[(
                #[trigger] final(self).products@.last().1@[i]) as int] == product@[i].0,
            final(self).flattened_ml_extensions@.len() >= old(self).flattened_ml_extensions@.len(),
            final(self).flattened_ml_extensions@.take(
                old(self).flattened_ml_extensions@.len() as int,
            ) == old(self).flattened_ml_extensions@,
            final(self).handles@.take(old(self).handles@.len() as int)
                == old(self).handles@,
            forall|i: int|
                0 <= i < product@.len() && old(self).handles@.contains(product@[i].0) ==> (
                #[trigger] final(self).products@.last().1@[i]) < old(self).handles@.len(),
            forall|i: int, j: int|
                0 <= i < product@.len() && !old(self).handles@.contains(product@[i].0)
                    && #[trigger] is_first(product@, j, product@[i].0)
                    ==> final(self).flattened_ml_extensions@[final(self).products@.last().1@[i] as int]
                    == product@[j].1,
    {
        let count = product.len();
        if count > self.max_multiplicands {
            self.max_multiplicands = count;
        }
        let ghost before_handles = self.handles@;
        let ghost before_registry = self.flattened_ml_extensions@;
        let ghost before_products = self.products@;
        let mut indexed_product: Vec<usize> = Vec::new();
        let mut product = product;
        let mut i: usize = 0;
        let ghost given = product@;
        let ghost mut origin: Seq<int> = Seq::empty();
        let mut rest: Vec<(u64, DenseMultilinearExtension<F>)> = Vec::new();
        // take the polynomials out of the product, last first
        while product.len() > 0
            invariant
                product@.len() + rest@.len() == given.len(),
                forall|j: int| 0 <= j < product@.len() ==> product@[j] == given[j],
                forall|j: int|
                    0 <= j < rest@.len() ==> rest@[j] == given[given.len() - 1 - j],
            decreases product@.len(),
        {
            let item = product.pop().unwrap();
            rest.push(item);
        }
        while rest.len() > 0
            invariant
                i + rest@.len() == given.len(),
                count == given.len(),
                forall|j: int|
                    0 <= j < rest@.len() ==> rest@[j] == given[given.len() - 1 - j],
                forall|j: int|
                    0 <= j < given.len() ==> (#[trigger] given[j]).1.wf() && given[j].1.num_vars
                        == self.num_variables,
                self.wf(),
                self.num_variables == old(self).num_variables,
                self.products@ == before_products,
                self.max_multiplicands == (if old(self).max_multiplicands >= given.len() {
                    old(self).max_multiplicands
                } else {
                    given.len() as usize
                }),
                self.flattened_ml_extensions@.len() >= before_registry.len(),
                self.flattened_ml_extensions@.take(before_registry.len() as int)
                    == before_registry,
                self.handles@.take(before_handles.len() as int) == before_handles,
                before_handles.len() == before_registry.len(),
                indexed_product@.len() == i,
                forall|j: int|
                    0 <= j < i ==> #[trigger] indexed_product@[j] < self.handles@.len()
                        && self.handles@[indexed_product@[j] as int] == given[j].0,
                forall|j: int|
                    0 <= j < i ==> (before_handles.contains(given[j].0) <==> (
                    #[trigger] indexed_product@[j]) < before_handles.len()),
                origin.len() == self.handles@.len() - before_handles.len(),
                forall|q: int|
                    0 <= q < origin.len() ==> 0 <= #[trigger] origin[q] < i && is_first(
                        given,
                        origin[q],
                        self.handles@[before_handles.len() + q],
                    ) && self.flattened_ml_extensions@[before_handles.len() + q]
                        == given[origin[q]].1,
            decreases rest@.len(),
        {
            let ghost mid_handles = self.handles@;
            let ghost mid_registry = self.flattened_ml_extensions@;
            let (handle, m) = rest.pop().unwrap();
            proof {
                assert(given[i as int].0 == handle && given[i as int].1 == m);
                assert(given[i as int].1.wf());
            }
            let ghost mid_origin = origin;
            let ghost mid_indexed = indexed_product@;
            match self.find(handle) {
                Some(index) => {
                    indexed_product.push(index);
                    proof {
                        // the handles of the registry are all different
                        if before_handles.contains(handle) {
                            let at = choose|at: int|
                                0 <= at < before_handles.len() && before_handles[at] == handle;
                            assert(mid_handles.take(before_handles.len() as int)[at]
                                == mid_handles[at]);
                            assert(index == at);
                        } else if index < before_handles.len() {
                            assert(mid_handles.take(before_handles.len() as int)[index as int]
                                == mid_handles[index as int]);
                            assert(before_handles[index as int] == handle);
                        }
                    }
                },
                None => {
                    let curr_index = self.flattened_ml_extensions.len();
                    self.flattened_ml_extensions.push(m);
                    self.handles.push(handle);
                    indexed_product.push(curr_index);
                    proof {
                        origin = origin.push(i as int);
                        if before_handles.contains(handle) {
                            let at = choose|at: int|
                                0 <= at < before_handles.len() && before_handles[at] == handle;
                            assert(mid_handles.take(before_handles.len() as int)[at]
                                == mid_handles[at]);
                        }
                        assert(is_first(given, i as int, handle)) by {
                            assert forall|l: int| 0 <= l < i implies (#[trigger] given[l]).0
                                != handle by {
                                assert(mid_handles[mid_indexed[l] as int] == given[l].0);
                            }
                        }
                        assert forall|q: int| 0 <= q < origin.len() implies 0 <= #[trigger] origin[q]
                            < i + 1 && is_first(
                            given,
                            origin[q],
                            self.handles@[before_handles.len() + q],
                        ) && self.flattened_ml_extensions@[before_handles.len() + q]
                            == given[origin[q]].1 by {
                            if q < mid_origin.len() {
                                assert(origin[q] == mid_origin[q]);
                                assert(self.handles@[before_handles.len() + q]
                                    == mid_handles[before_handles.len() + q]);
                                assert(self.flattened_ml_extensions@[before_handles.len() + q]
                                    == mid_registry[before_handles.len() + q]);
                            }
                        }
                        assert(self.handles@.take(before_handles.len() as int) =~= before_handles)
                            by {
                            assert(mid_handles.take(before_handles.len() as int)
                                == before_handles);
                            assert forall|j: int| 0 <= j < before_handles.len() implies
                                self.handles@[j] == before_handles[j] by {
                                assert(mid_handles.take(before_handles.len() as int)[j]
                                    == mid_handles[j]);
                            }
                        }
                        assert(self.flattened_ml_extensions@.take(before_registry.len() as int)
                            =~= before_registry) by {
                            assert(mid_registry.take(before_registry.len() as int)
                                == before_registry);
                            assert forall|j: int| 0 <= j < before_registry.len() implies
                                self.flattened_ml_extensions@[j] == before_registry[j] by {
                                assert(mid_registry.take(before_registry.len() as int)[j]
                                    == mid_registry[j]);
                            }
                        }
                    }
                },
            }
            i = i + 1;
        }
        self.products.push((coefficient, indexed_product));
        proof {
            assert(self.products@.take(before_products.len() as int) =~= before_products);
            assert(self.products@.last().1@ == indexed_product@);
            assert forall|a: int, j: int|
                0 <= a < given.len() && !before_handles.contains(given[a].0) && #[trigger] is_first(
                    given,
                    j,
                    given[a].0,
                ) implies self.flattened_ml_extensions@[indexed_product@[a] as int]
                == given[j].1 by {
                let place = indexed_product@[a] as int;
                let q = place - before_handles.len();
                assert(0 <= q < origin.len());
                let first = origin[q];
                assert(is_first(given, first, given[a].0));
                // the first place of a handle is one place
                if first < j {
                    assert(given[first].0 != given[a].0);
                } else if j < first {
                    assert(given[j].0 != given[a].0);
                }
            }
        }
    }

    /// The value of the sum at `point`: the sum over the products of the
    /// coefficient times the values of the factors.
    pub fn evaluate(&self, point: &[F]) -> (r: F)
        requires
            self.wf(),
            point@.len() == self.num_variables,
        ensures
            fval(r) == sum_value(
                self.products@,
                Seq::new(
                    self.flattened_ml_extensions@.len(),
                    |i: int|
                        fix_many(
                            vals(self.flattened_ml_extensions@[i].evaluations@),
                            vals(point@),
                            point@.len(),
                            F::spec_modulus() as int,
                        )[0],
                ),
                self.products@.len(),
                F::spec_modulus() as int,
            ),
    {
        let ghost p = F::spec_modulus() as int;
        let ghost values = Seq::new(
            self.flattened_ml_extensions@.len(),
            |i: int|
                fix_many(
                    vals(self.flattened_ml_extensions@[i].evaluations@),
                    vals(point@),
                    point@.len(),
                    p,
                )[0],
        );
        let n = self.products.len();
        let mut result = F::zero();
        let mut k: usize = 0;
        proof {
            F::lemma_modulus();
        }
        while k < n
            invariant
                k <= n,
                n == self.products@.len(),
                self.wf(),
                point@.len() == self.num_variables,
                p == F::spec_modulus(),
                p > 1,
                values == Seq::new(
                    self.flattened_ml_extensions@.len(),
                    |i: int|
                        fix_many(
                            vals(self.flattened_ml_extensions@[i].evaluations@),
                            vals(point@),
                            point@.len(),
                            p,
                        )[0],
                ),
                canonical(result),
                fval(result) == sum_value(self.products@, values, k as nat, p),
            decreases n - k,
        {
            let places = &self.products[k].1;
            let mut acc = self.products[k].0;
            let m = places.len();
            let mut i: usize = 0;
            while i < m
                invariant
                    i <= m,
                    k < n,
                    n == self.products@.len(),
                    m == self.products@[k as int].1@.len(),
                    places@ == self.products@[k as int].1@,
                    self.wf(),
                    point@.len() == self.num_variables,
                    p == F::spec_modulus(),
                    values == Seq::new(
                        self.flattened_ml_extensions@.len(),
                        |i: int|
                            fix_many(
                                vals(self.flattened_ml_extensions@[i].evaluations@),
                                vals(point@),
                                point@.len(),
                                p,
                            )[0],
                    ),
                    fval(acc) == product_value(
                        fval(self.products@[k as int].0) as int,
                        places@,
                        values,
                        i as nat,
                        p,
                    ),
                decreases m - i,
            {
                let place = places[i];
                assert(self.products@[k as int].1@[i as int] < self.flattened_ml_extensions@.len());
                assert(self.flattened_ml_extensions@[place as int].wf());
                let value = self.flattened_ml_extensions[place].evaluate(point);
                acc = acc.mul(value);
                i = i + 1;
            }
            let term = F::checked_new(acc.get());
            proof {
                vstd::arithmetic::div_mod::lemma_mod_bound(fval(acc) as int, p);
                vstd::arithmetic::div_mod::lemma_add_mod_noop(
                    fval(result) as int,
                    fval(acc) as int,
                    p,
                );
                vstd::arithmetic::div_mod::lemma_small_mod(fval(result), p as nat);
                vstd::arithmetic::div_mod::lemma_mod_bound((fval(result) + fval(term)) as int, p);
            }
            result = result.add(term);
            k = k + 1;
        }
        result
    }
}

} // verus!
