//! The library in single and double precision floating point arithmetic.
use graph_embedding::dichotomy::{dichotomy_solver, DichotomyError};
use graph_embedding::embedder::{EmbedError, Embedder};
use graph_embedding::entropy::{
    cauchy_edge_weight, estimate_embedded_scale_from_initial_scales,
    estimate_embedded_scales_from_first_neighbour, grad_cauchy_edge_weight, l2_dist, EntropyError,
    EntropyOptim,
};
use graph_embedding::graph::{KGraph, OutEdge};
use graph_embedding::laplacian::{full_laplacian, sparse_laplacian, MatRepr};
use graph_embedding::matrix::Matrix;
use graph_embedding::number::{midpoint, positive, squared_gap, total, CastTo, Real};
use graph_embedding::scale::{
    get_scale_from_proba_normalisation, get_scale_from_umap, NodeParam, NodeParams, ScaleError,
};
use graph_embedding::sparse::CsrMatrix;
use graph_embedding::spectral::{
    first_rank, spectral_embedding, RangePrecision, SpectralError, Svd,
};

use hnsw_rs::prelude::{DistL1, Hnsw};
use ndarray::{Array2, Axis};
use rand::distributions::Uniform;
use rand::rngs::StdRng;
use rand::{Rng, SeedableRng};

#[derive(Clone, Copy, Debug, PartialEq)]
struct Single(f32);

#[derive(Clone, Copy, Debug, PartialEq)]
struct Double(f64);

impl Real for Single {
    fn zero() -> Self {
        Single(0.)
    }
    fn one() -> Self {
        Single(1.)
    }
    fn greatest() -> Self {
        Single(f32::MAX)
    }
    fn ratio(num: u32, den: u32) -> Self {
        Single(num as f32 / den as f32)
    }
    fn count(n: usize) -> Self {
        Single(n as f32)
    }
    fn plus(self, other: Self) -> Self {
        Single(self.0 + other.0)
    }
    fn minus(self, other: Self) -> Self {
        Single(self.0 - other.0)
    }
    fn times(self, other: Self) -> Self {
        Single(self.0 * other.0)
    }
    fn over(self, other: Self) -> Self {
        Single(self.0 / other.0)
    }
    fn negated(self) -> Self {
        Single(-self.0)
    }
    fn magnitude(self) -> Self {
        Single(self.0.abs())
    }
    fn sqrt(self) -> Self {
        Single(self.0.sqrt())
    }
    fn exp(self) -> Self {
        Single(self.0.exp())
    }
    fn ln(self) -> Self {
        Single(self.0.ln())
    }
    fn power(self, exponent: Self) -> Self {
        Single(self.0.powf(exponent.0))
    }
    fn greater_of(self, other: Self) -> Self {
        Single(self.0.max(other.0))
    }
    fn lesser_of(self, other: Self) -> Self {
        Single(self.0.min(other.0))
    }
    fn below(self, other: Self) -> bool {
        self.0 < other.0
    }
    fn at_most(self, other: Self) -> bool {
        self.0 <= other.0
    }
    fn finite(self) -> bool {
        self.0.is_finite()
    }
    fn normal(self) -> bool {
        self.0.is_normal()
    }
}

impl Real for Double {
    fn zero() -> Self {
        Double(0.)
    }
    fn one() -> Self {
        Double(1.)
    }
    fn greatest() -> Self {
        Double(f64::MAX)
    }
    fn ratio(num: u32, den: u32) -> Self {
        Double(num as f64 / den as f64)
    }
    fn count(n: usize) -> Self {
        Double(n as f64)
    }
    fn plus(self, other: Self) -> Self {
        Double(self.0 + other.0)
    }
    fn minus(self, other: Self) -> Self {
        Double(self.0 - other.0)
    }
    fn times(self, other: Self) -> Self {
        Double(self.0 * other.0)
    }
    fn over(self, other: Self) -> Self {
        Double(self.0 / other.0)
    }
    fn negated(self) -> Self {
        Double(-self.0)
    }
    fn magnitude(self) -> Self {
        Double(self.0.abs())
    }
    fn sqrt(self) -> Self {
        Double(self.0.sqrt())
    }
    fn exp(self) -> Self {
        Double(self.0.exp())
    }
    fn ln(self) -> Self {
        Double(self.0.ln())
    }
    fn power(self, exponent: Self) -> Self {
        Double(self.0.powf(exponent.0))
    }
    fn greater_of(self, other: Self) -> Self {
        Double(self.0.max(other.0))
    }
    fn lesser_of(self, other: Self) -> Self {
        Double(self.0.min(other.0))
    }
    fn below(self, other: Self) -> bool {
        self.0 < other.0
    }
    fn at_most(self, other: Self) -> bool {
        self.0 <= other.0
    }
    fn finite(self) -> bool {
        self.0.is_finite()
    }
    fn normal(self) -> bool {
        self.0.is_normal()
    }
}

impl CastTo<Single> for Single {
    fn cast(self) -> Single {
        self
    }
}

impl CastTo<Double> for Single {
    fn cast(self) -> Double {
        Double(self.0 as f64)
    }
}

impl CastTo<Single> for Double {
    fn cast(self) -> Single {
        Single(self.0 as f32)
    }
}

impl CastTo<Double> for Double {
    fn cast(self) -> Double {
        self
    }
}

fn singles(values: &[f32]) -> Vec<Single> {
    values.iter().map(|x| Single(*x)).collect()
}

fn edges(list: &[(usize, f32)]) -> Vec<OutEdge<Single>> {
    list.iter().map(|(n, w)| OutEdge::new(*n, Single(*w))).collect()
}

fn graph(lists: &[&[(usize, f32)]]) -> KGraph<Single> {
    KGraph { neighbours: lists.iter().map(|l| edges(l)).collect() }
}

fn params(lists: &[(f32, &[(usize, f32)])]) -> NodeParams<Single> {
    NodeParams {
        params: lists.iter().map(|(s, l)| NodeParam::new(Single(*s), edges(l))).collect(),
    }
}

fn matrix(ncols: usize, rows: &[&[f32]]) -> Matrix<Single> {
    Matrix::from_rows(ncols, rows.iter().map(|r| singles(r)).collect()).unwrap()
}

fn near(a: f32, b: f32, tolerance: f32) -> bool {
    (a - b).abs() <= tolerance
}

// eigenvalues in decreasing order and eigenvectors, in columns, of a symmetric matrix, by Jacobi's method
fn jacobi(mut a: Vec<Vec<f64>>) -> (Vec<f64>, Vec<Vec<f64>>) {
    let n = a.len();
    let mut v: Vec<Vec<f64>> = (0..n).map(|i| (0..n).map(|j| if i == j { 1. } else { 0. }).collect()).collect();
    for _ in 0..60 {
        for p in 0..n {
            for q in p + 1..n {
                if a[p][q].abs() < 1.0E-14 {
                    continue;
                }
                let theta = (a[q][q] - a[p][p]) / (2. * a[p][q]);
                let t = theta.signum() / (theta.abs() + (theta * theta + 1.).sqrt());
                let t = if theta == 0. { 1. } else { t };
                let c = 1. / (t * t + 1.).sqrt();
                let s = t * c;
                for k in 0..n {
                    let (x, y) = (a[k][p], a[k][q]);
                    a[k][p] = c * x - s * y;
                    a[k][q] = s * x + c * y;
                }
                for k in 0..n {
                    let (x, y) = (a[p][k], a[q][k]);
                    a[p][k] = c * x - s * y;
                    a[q][k] = s * x + c * y;
                }
                for k in 0..n {
                    let (x, y) = (v[k][p], v[k][q]);
                    v[k][p] = c * x - s * y;
                    v[k][q] = s * x + c * y;
                }
            }
        }
    }
    let mut order: Vec<usize> = (0..n).collect();
    order.sort_by(|i, j| a[*j][*j].partial_cmp(&a[*i][*i]).unwrap());
    let sigma = order.iter().map(|i| a[*i][*i].abs()).collect();
    let u = (0..n).map(|k| order.iter().map(|i| v[k][*i]).collect()).collect();
    (sigma, u)
}

// the dominant singular vectors of a symmetric matrix, by orthogonal iteration
fn dominant(csr: &CsrMatrix<Single>, rank: usize) -> (Vec<f64>, Vec<Vec<f64>>) {
    let n = csr.nbnodes;
    let mut rng = StdRng::seed_from_u64(17);
    let mut q: Vec<Vec<f64>> = (0..rank).map(|_| (0..n).map(|_| rng.gen_range(-1.0..1.0)).collect()).collect();
    let mut sigma = vec![0.; rank];
    for _ in 0..60 {
        for x in q.iter_mut() {
            let mut y = vec![0.; n];
            for i in 0..n {
                for s in csr.indptr[i]..csr.indptr[i + 1] {
                    y[i] += csr.data[s].0 as f64 * x[csr.indices[s]];
                }
            }
            *x = y;
        }
        for k in 0..rank {
            for m in 0..k {
                let dot: f64 = (0..n).map(|i| q[k][i] * q[m][i]).sum();
                for i in 0..n {
                    let y = q[m][i];
                    q[k][i] -= dot * y;
                }
            }
            sigma[k] = q[k].iter().map(|x| x * x).sum::<f64>().sqrt();
            for i in 0..n {
                q[k][i] /= sigma[k];
            }
        }
    }
    let mut order: Vec<usize> = (0..rank).collect();
    order.sort_by(|i, j| sigma[*j].partial_cmp(&sigma[*i]).unwrap());
    let values = order.iter().map(|k| sigma[*k]).collect();
    let u = (0..n).map(|i| order.iter().map(|k| q[*k][i]).collect()).collect();
    (values, u)
}

fn solve(m: &MatRepr<Single>, precision: RangePrecision<Double>) -> Option<Svd<Single>> {
    let (sigma, u) = match m {
        MatRepr::Full(full) => {
            let rows = (0..full.nrows()).map(|i| full.row(i).iter().map(|x| x.0 as f64).collect()).collect();
            jacobi(rows)
        }
        MatRepr::Sparse(csr) => dominant(csr, precision.max_rank),
    };
    let ncols = sigma.len();
    let rows = u.iter().map(|r| r.iter().map(|x| Single(*x as f32)).collect()).collect();
    Some(Svd { sigma: sigma.iter().map(|x| Single(*x as f32)).collect(), u: Matrix::from_rows(ncols, rows)? })
}

// six points on a line at increasing gaps, each linked to its two nearest
fn small_graph() -> KGraph<Single> {
    graph(&[
        &[(1, 1.), (2, 2.1)],
        &[(0, 1.), (2, 1.1)],
        &[(1, 1.1), (3, 1.2)],
        &[(2, 1.2), (4, 1.3)],
        &[(3, 1.3), (5, 1.4)],
        &[(4, 1.4), (3, 2.7)],
    ])
}

#[test]
fn test_dichotomy_inc() {
    let f = |x: Single| Single(x.0 * x.0);
    //
    let beta = dichotomy_solver(true, f, Single(0.), Single(5.), Single(2.)).unwrap().0;
    println!("beta : {}", beta);
    assert!((beta - 2.0f32.sqrt()).abs() < 1.0E-4);
}

#[test]
fn test_dichotomy_dec() {
    let f = |x: Single| Single(1.0f32 / (x.0 * x.0));
    //
    let beta = dichotomy_solver(false, f, Single(0.2), Single(5.), Single(1. / 2.)).unwrap().0;
    println!("beta : {}", beta);
    assert!((beta - 2.0f32.sqrt()).abs() < 1.0E-4);
}

fn gen_rand_data_f32(nb_elem: usize, dim: usize, seed: u64) -> Vec<Vec<f32>> {
    let mut data = Vec::<Vec<f32>>::with_capacity(nb_elem);
    let mut rng = StdRng::seed_from_u64(seed);
    let unif = Uniform::<f32>::new(0., 1.);
    for i in 0..nb_elem {
        let val = 2. * i as f32 * rng.sample(unif);
        let v: Vec<f32> = (0..dim).into_iter().map(|_| val * rng.sample(unif)).collect();
        data.push(v);
    }
    data
}

fn mini_embed(seed: u64) {
    // generate data
    let nb_elem = 500;
    let embed_dim = 20;
    let data = gen_rand_data_f32(nb_elem, embed_dim, seed);
    let data_with_id = data.iter().zip(0..data.len()).collect();
    // hnsw construction
    let ef_c = 50;
    let max_nb_connection = 50;
    let nb_layer = 16.min((nb_elem as f32).ln().trunc() as usize);
    let mut hns = Hnsw::<f32, DistL1>::new(max_nb_connection, nb_elem, nb_layer, ef_c, DistL1 {});
    // to enforce the asked number of neighbour
    hns.set_keeping_pruned(true);
    hns.parallel_insert(&data_with_id);
    hns.dump_layer_info();
    // go to kgraph
    let knbn = 10;
    let mut neighbours: Vec<Vec<OutEdge<Single>>> = Vec::new();
    for i in 0..nb_elem {
        let found = hns.search(&data[i], knbn + 1, 200);
        let list: Vec<OutEdge<Single>> = found
            .iter()
            .filter(|n| n.d_id != i)
            .take(knbn)
            .map(|n| OutEdge::new(n.d_id, Single(n.distance)))
            .collect();
        neighbours.push(list);
    }
    let kgraph = KGraph { neighbours };
    assert!(kgraph.is_well_formed() && kgraph.is_loop_free());
    let embed_dim = 5;
    let mut embedder = Embedder::<Single, Single>::new(&kgraph, embed_dim);
    let embed_res = embedder.embed::<Double, _>(solve);
    println!("{:?}", embed_res);
    assert!(embed_res.is_ok());
    let embedded = embedder.get_emmbedded().unwrap();
    assert_eq!(embedded.nrows(), nb_elem);
    assert_eq!(embedded.ncols(), embed_dim);
}

#[test]
fn mini_embed_full() {
    mini_embed(1);
}

#[test]
fn mini_embed_of_other_data() {
    for seed in 2..7 {
        mini_embed(seed);
    }
}

#[test]
fn dichotomy_refuses_an_empty_interval() {
    let f = |x: Single| x;
    let res = dichotomy_solver(true, f, Single(5.), Single(0.), Single(2.));
    assert_eq!(res.unwrap_err(), DichotomyError::EmptyInterval);
    let res = dichotomy_solver(true, f, Single(1.), Single(1.), Single(1.));
    assert_eq!(res.unwrap_err(), DichotomyError::EmptyInterval);
}

#[test]
fn dichotomy_refuses_a_target_out_of_range() {
    let f = |x: Single| x;
    let res = dichotomy_solver(true, f, Single(0.), Single(5.), Single(6.));
    assert_eq!(res.unwrap_err(), DichotomyError::TargetOutOfRange);
    let res = dichotomy_solver(true, f, Single(0.), Single(5.), Single(-1.));
    assert_eq!(res.unwrap_err(), DichotomyError::TargetOutOfRange);
}

#[test]
fn dichotomy_refuses_a_wrong_variation() {
    let down = |x: Single| Single(-x.0);
    let res = dichotomy_solver(true, down, Single(0.), Single(5.), Single(-2.));
    assert_eq!(res.unwrap_err(), DichotomyError::NotIncreasing);
    let up = |x: Single| x;
    let res = dichotomy_solver(false, up, Single(0.), Single(5.), Single(2.));
    assert_eq!(res.unwrap_err(), DichotomyError::NotDecreasing);
}

#[test]
fn dichotomy_gives_up() {
    let step = |x: Single| Single(if x.0 < 0.3 { 0. } else { 1. });
    let res = dichotomy_solver(true, step, Single(0.), Single(5.), Single(0.5));
    assert_eq!(res.unwrap_err(), DichotomyError::NoConvergence);
}

#[test]
fn dichotomy_tries_one_first() {
    let f = |x: Single| x;
    let res = dichotomy_solver(true, f, Single(0.), Single(5.), Single(1.));
    assert_eq!(res.unwrap(), Single(1.));
    // 1, then 3, then 2
    let res = dichotomy_solver(true, f, Single(0.), Single(5.), Single(2.));
    assert_eq!(res.unwrap(), Single(2.));
}

#[test]
fn dichotomy_stays_inside_the_interval() {
    // the value at 1 is the target, but 1 is outside the interval
    let f = |x: Single| Single(x.0.min(0.5));
    let x = dichotomy_solver(true, f, Single(0.), Single(0.5), Single(0.5)).unwrap().0;
    assert!(0. <= x && x <= 0.5);
    assert!(near(x, 0.5, 1.0E-4));
    let g = |x: Single| Single(10. - x.0);
    let x = dichotomy_solver(false, g, Single(2.), Single(6.), Single(7.)).unwrap().0;
    assert!(near(x, 3., 1.0E-4));
}

#[test]
fn arithmetic_helpers() {
    assert_eq!(total(&singles(&[1., 2., 4.5])), Single(7.5));
    assert_eq!(total(&singles(&[])), Single(0.));
    assert_eq!(midpoint(Single(1.), Single(4.)), Single(2.5));
    assert_eq!(squared_gap(Single(1.), Single(4.)), Single(9.));
    assert!(positive(Single(0.1)));
    assert!(!positive(Single(0.)));
    assert!(!positive(Single(f32::NAN)));
}

#[test]
fn matrices_are_rectangular() {
    let m = Matrix::from_rows(2, vec![singles(&[1., 2.]), singles(&[3., 4.]), singles(&[5., 6.])]).unwrap();
    assert_eq!((m.nrows(), m.ncols()), (3, 2));
    assert_eq!(m.row(1), &singles(&[3., 4.]));
    assert!(Matrix::from_rows(2, vec![singles(&[1., 2.]), singles(&[3.])]).is_none());
    let empty = Matrix::<Single>::from_rows(4, vec![]).unwrap();
    assert_eq!((empty.nrows(), empty.ncols()), (0, 4));
}

#[test]
fn graphs_are_checked() {
    assert!(small_graph().is_well_formed() && small_graph().is_loop_free());
    assert_eq!(small_graph().get_nb_nodes(), 6);
    assert_eq!(small_graph().get_neighbours()[2][1].node, 3);
    assert!(!graph(&[&[(1, 1.)], &[]]).is_well_formed());
    assert!(!graph(&[&[(1, 1.)], &[(2, 1.)]]).is_well_formed());
    let looped = graph(&[&[(1, 1.)], &[(1, 1.)]]);
    assert!(looped.is_well_formed() && !looped.is_loop_free());
}

#[test]
fn equal_distances_give_equal_probabilities() {
    let g = graph(&[&[(1, 2.), (2, 2.)], &[(0, 2.)], &[(0, 2.)]]);
    let p = get_scale_from_proba_normalisation::<Single, Single>(&g, &g.neighbours[0]).unwrap();
    assert_eq!(p.scale, Single(2.));
    assert_eq!(p.edges.len(), 2);
    for (e, n) in p.edges.iter().zip(&g.neighbours[0]) {
        assert_eq!(e.node, n.node);
        assert_eq!(e.weight, Single(0.5));
    }
}

#[test]
fn probabilities_decrease_with_distance() {
    let g = graph(&[&[(1, 1.), (2, 2.)], &[(0, 1.)], &[(1, 4.), (0, 5.)]]);
    let p = get_scale_from_proba_normalisation::<Single, Single>(&g, &g.neighbours[0]).unwrap();
    // nearest distances 1 and 4 of the neighbours and 1 of the node
    assert_eq!(p.scale, Single(2.));
    let (a, b) = ((-0.5f32).exp(), (-1.0f32).exp());
    assert_eq!(p.edges[0].node, 1);
    assert_eq!(p.edges[0].weight, Single(a / (a + b)));
    assert_eq!(p.edges[1].node, 2);
    assert_eq!(p.edges[1].weight, Single(b / (a + b)));
    assert!(near(p.edges[0].weight.0 + p.edges[1].weight.0, 1., 1.0E-6));
}

#[test]
fn a_large_range_of_distances_stretches_the_scale() {
    for last in 20..200 {
        let g = graph(&[&[(1, 1.), (2, last as f32)], &[(0, 1.)], &[(1, 1.)]]);
        let p = get_scale_from_proba_normalisation::<Single, Single>(&g, &g.neighbours[0]).unwrap();
        assert_eq!(p.scale, Single(1.));
        assert!(near(p.edges[1].weight.0 / p.edges[0].weight.0, 1.0E-5, 1.0E-8));
    }
}

#[test]
fn scales_are_refused() {
    let zero = graph(&[&[(1, 0.)], &[(0, 0.)]]);
    let res = get_scale_from_proba_normalisation::<Single, Single>(&zero, &zero.neighbours[0]);
    assert_eq!(res.err(), Some(ScaleError::ScaleNotPositive));
    let first = graph(&[&[(1, 0.), (1, 1.)], &[(0, 1.)]]);
    let res = get_scale_from_proba_normalisation::<Single, Single>(&first, &first.neighbours[0]);
    assert_eq!(res.err(), Some(ScaleError::DistanceNotPositive));
    let last = graph(&[&[(1, 1.), (1, 0.)], &[(0, 1.)]]);
    let res = get_scale_from_proba_normalisation::<Single, Single>(&last, &last.neighbours[0]);
    assert_eq!(res.err(), Some(ScaleError::DistanceNotPositive));
    let unsorted = graph(&[&[(1, 2.), (1, 1.)], &[(0, 1.)]]);
    let res = get_scale_from_proba_normalisation::<Single, Single>(&unsorted, &unsorted.neighbours[0]);
    assert_eq!(res.err(), Some(ScaleError::NotSorted));
    let infinite = graph(&[&[(1, 1.), (1, f32::INFINITY)], &[(0, 1.)]]);
    let res = get_scale_from_proba_normalisation::<Single, Single>(&infinite, &infinite.neighbours[0]);
    assert_eq!(res.err(), Some(ScaleError::RangeTooWide));
}

#[test]
fn umap_probabilities_sum_to_the_norm() {
    let list = edges(&[(1, 1.), (2, 2.), (3, 4.)]);
    let (scale, probas) = get_scale_from_umap::<Double, Single, Single>(Double(1.5), &list).unwrap();
    assert_eq!(probas[0], Single(1.));
    let beta = 1. / scale.0;
    assert!(near(probas[1].0, (-beta).exp(), 1.0E-5));
    assert!(near(probas[2].0, (-3. * beta).exp(), 1.0E-5));
    assert!(near(probas.iter().map(|p| p.0).sum::<f32>(), 1.5, 1.0E-4));
    // the first probability alone is 1
    let res = get_scale_from_umap::<Double, Single, Single>(Double(0.5), &list);
    assert_eq!(res.err(), Some(DichotomyError::TargetOutOfRange));
    // no probability is above 1
    let res = get_scale_from_umap::<Double, Single, Single>(Double(3.5), &list);
    assert_eq!(res.err(), Some(DichotomyError::TargetOutOfRange));
}

#[test]
fn umap_scales_of_small_norms_are_found() {
    let list = edges(&[(1, 1.), (2, 2.)]);
    let (scale, probas) = get_scale_from_umap::<Double, Single, Single>(Double(1.1), &list).unwrap();
    assert!(near(scale.0, 1. / 10.0f32.ln(), 1.0E-3));
    assert!(near(probas[0].0, 1., 1.0E-4));
    assert!(near(probas[1].0, 0.1, 1.0E-4));
    // whatever the unit of distance
    for unit in [1.0E-6, 1.0E-3, 1.0E3, 1.0E6] {
        let list = edges(&[(1, unit), (2, 2. * unit), (3, 3. * unit)]);
        for norm in [1.0001, 1.05, 1.5, 2.5, 2.9999] {
            let (_, probas) = get_scale_from_umap::<Double, Single, Single>(Double(norm), &list).unwrap();
            assert!(near(probas.iter().map(|p| p.0).sum::<f32>(), norm as f32, 1.0E-4));
        }
    }
}

#[test]
fn node_params_are_read() {
    let p = params(&[(1., &[(1, 0.5)]), (2., &[(0, 0.25)])]);
    assert_eq!(p.get_node_param(1).scale, Single(2.));
    assert_eq!(p.get_node_param(1).edges[0].weight, Single(0.25));
}

fn triangle() -> NodeParams<Single> {
    params(&[(1., &[(1, 0.3), (1, 0.6), (2, 0.4)]), (1., &[(0, 1.)]), (1., &[(0, 0.5), (1, 0.5)])])
}

#[test]
fn degrees_are_the_sums_along_an_axis() {
    let n = 37;
    let lists: Vec<Vec<(usize, f32)>> = (0..n)
        .map(|i| (0..n).filter(|j| *j != i).map(|j| (j, 1. / (1. + ((7 * i + 3 * j) % 11) as f32))).collect())
        .collect();
    let views: Vec<(f32, &[(usize, f32)])> = lists.iter().map(|l| (1., l.as_slice())).collect();
    let (_, degrees) = full_laplacian(&params(&views));
    let mut transitions = Array2::<f32>::zeros((n, n));
    for i in 0..n {
        for (j, w) in &lists[i] {
            transitions[[i, *j]] = *w;
        }
    }
    let symgraph = (&transitions + &transitions.view().t()) * 0.5;
    let expected: Vec<Single> = symgraph.sum_axis(Axis(1)).iter().map(|x| Single(*x)).collect();
    assert_eq!(degrees, expected);
}

#[test]
fn full_laplacian_of_a_triangle() {
    let (l, degrees) = full_laplacian(&triangle());
    let g = [[0., 0.8, 0.45], [0.8, 0., 0.25], [0.45, 0.25, 0.]];
    let d: [f32; 3] = [1.25, 1.05, 0.7];
    for i in 0..3 {
        assert!(near(degrees[i].0, d[i], 1.0E-6));
        for j in 0..3 {
            let expected = if i == j { 1. } else { -g[i][j] / (d[i] * d[j]).sqrt() };
            assert!(near(l.row(i)[j].0, expected, 1.0E-6));
            assert_eq!(l.row(i)[j], l.row(j)[i]);
        }
    }
}

#[test]
fn sparse_laplacian_of_a_triangle() {
    let (csr, degrees) = sparse_laplacian(&triangle());
    let (full, _) = full_laplacian(&triangle());
    // an edge and its opposite contribute two terms to each coefficient, which are added
    assert_eq!(csr.nbnodes, 3);
    assert_eq!(csr.indptr, vec![0, 3, 6, 9]);
    assert_eq!(csr.indices, vec![0, 1, 2, 0, 1, 2, 0, 1, 2]);
    let d: [f32; 3] = [2.5, 2.1, 1.4];
    for i in 0..3 {
        assert!(near(degrees[i].0, d[i], 1.0E-6));
        for j in 0..3 {
            assert!(near(csr.data[3 * i + j].0, full.row(i)[j].0, 1.0E-6));
            assert_eq!(csr.data[3 * i + j], csr.data[3 * j + i]);
        }
    }
}

#[test]
fn sparse_laplacian_keeps_one_direction() {
    let (csr, degrees) = sparse_laplacian(&params(&[(1., &[(2, 0.5)]), (1., &[(2, 0.25)]), (1., &[(0, 0.5)])]));
    assert_eq!(degrees, singles(&[1., 0.25, 1.25]));
    assert_eq!(csr.indptr, vec![0, 2, 4, 7]);
    assert_eq!(csr.indices, vec![0, 2, 1, 2, 0, 1, 2]);
    assert_eq!(csr.data[0], Single(1.));
    assert_eq!(csr.data[3], Single(-0.25 / (0.25f32 * 1.25).sqrt()));
    assert!(near(csr.data[1].0, -1. / 1.25f32.sqrt(), 1.0E-6));
    assert_eq!(csr.data[1], csr.data[4]);
}

#[test]
fn ranks_of_a_spectrum() {
    assert_eq!(first_rank(&singles(&[1.5, 1., 0.5, 0.00001, 0.]), false), Ok(2));
    assert_eq!(first_rank(&singles(&[1.5, 1., 0.5, 0.4, 0.3]), true), Ok(4));
    assert_eq!(first_rank(&singles(&[]), true), Err(SpectralError::EmptySpectrum));
    assert_eq!(first_rank(&singles(&[1., 2., 0.]), false), Err(SpectralError::SpectrumNotDecreasing));
    // two values are not compared
    assert_eq!(first_rank(&singles(&[1., 2.]), true), Ok(1));
    assert_eq!(first_rank(&singles(&[1., 0.5, 0.25]), false), Err(SpectralError::NoNullEigenvalue));
    assert_eq!(first_rank(&singles(&[0., 0., 0.]), false), Err(SpectralError::NoPositiveEigenvalue));
}

#[test]
fn spectral_embedding_reads_the_lower_vectors() {
    let svd = Svd {
        sigma: singles(&[1.5, 1., 0.5, 0.]),
        u: matrix(4, &[&[1., 2., 3., 4.], &[5., 6., 7., 8.], &[9., 10., 11., 12.], &[0., 0., 0., 0.]]),
    };
    let degrees = singles(&[4., 1., 4., 16.]);
    let e: Matrix<Single> = spectral_embedding(&degrees, &svd, 2, false).unwrap();
    // the weights are 2/5, 1/5, 2/5 and 4/5
    assert_eq!((e.nrows(), e.ncols()), (4, 2));
    assert_eq!(e.row(0), &singles(&[3. / 0.4, 2. / 0.4]));
    assert_eq!(e.row(1), &singles(&[7. / 0.2, 6. / 0.2]));
    assert_eq!(e.row(3), &singles(&[0., 0.]));
    // of an approximated decomposition the last vector is read too
    let e: Matrix<Single> = spectral_embedding(&degrees, &svd, 2, true).unwrap();
    assert_eq!(e.row(0), &singles(&[4. / 0.4, 3. / 0.4]));
}

#[test]
fn spectral_embedding_is_refused() {
    let svd = Svd { sigma: singles(&[1., 0.5, 0.]), u: matrix(2, &[&[1., 2.], &[3., 4.]]) };
    let res = spectral_embedding::<Single, Single>(&singles(&[1., 1.]), &svd, 2, false);
    assert_eq!(res.err(), Some(SpectralError::TooFewEigenvalues));
    let res = spectral_embedding::<Single, Single>(&singles(&[1., 1.]), &svd, 1, true);
    assert_eq!(res.err(), Some(SpectralError::ShapeMismatch));
    let res = spectral_embedding::<Single, Single>(&singles(&[1.]), &svd, 1, false);
    assert_eq!(res.err(), Some(SpectralError::ShapeMismatch));
    let res = spectral_embedding::<Single, Single>(&singles(&[1.]), &svd, 0, false);
    assert_eq!(res.err(), Some(SpectralError::ShapeMismatch));
    assert!(spectral_embedding::<Single, Single>(&singles(&[1., 1.]), &svd, 1, false).is_ok());
    assert!(spectral_embedding::<Single, Single>(&singles(&[1., 1.]), &svd, 0, false).is_ok());
}

#[test]
fn weights_of_embedded_edges() {
    let (p, q) = (singles(&[0., 0.]), singles(&[3., 4.]));
    assert_eq!(l2_dist(&p, &q), Single(25.));
    assert_eq!(cauchy_edge_weight(&p, Single(5.), Single(1.), &q), Ok(Single(0.5)));
    let w = cauchy_edge_weight(&p, Single(2.5), Single(2.), &q).unwrap();
    assert!(near(w.0, 1. / 17., 1.0E-6));
    assert_eq!(cauchy_edge_weight(&p, Single(5.), Single(1.), &p), Ok(Single(1.)));
    let nan = singles(&[f32::NAN, 0.]);
    assert_eq!(cauchy_edge_weight(&p, Single(5.), Single(1.), &nan), Err(EntropyError::WeightNotNormal));
}

#[test]
fn gradient_of_an_embedded_edge() {
    let mut gradient = singles(&[7.]);
    assert!(grad_cauchy_edge_weight(&singles(&[0.]), Single(1.), Single(1.), &singles(&[1.]), &mut gradient).is_ok());
    assert_eq!(gradient, singles(&[0.5]));
    let (p, q) = (singles(&[0., 0.]), singles(&[3., 4.]));
    let mut gradient = singles(&[7., 7.]);
    assert!(grad_cauchy_edge_weight(&p, Single(5.), Single(1.), &q, &mut gradient).is_ok());
    assert!(near(gradient[0].0, 0.06, 1.0E-6) && near(gradient[1].0, 0.08, 1.0E-6));
    let mut gradient = singles(&[7., 7.]);
    let nan = singles(&[f32::NAN, 0.]);
    let res = grad_cauchy_edge_weight(&nan, Single(5.), Single(1.), &q, &mut gradient);
    assert_eq!(res, Err(EntropyError::WeightNotNormal));
    assert_eq!(gradient, singles(&[7., 7.]));
}

#[test]
fn the_gradient_is_the_slope_of_the_weight() {
    let doubles = |v: &[f64]| -> Vec<Double> { v.iter().map(|x| Double(*x)).collect() };
    let y = doubles(&[1.5, -0.5]);
    for (s, b) in [(0.7, 1.), (2., 1.), (1.3, 2.), (0.9, 0.5)] {
        let mut gradient = doubles(&[0., 0.]);
        let x = [0.25, 0.5];
        let weight = |x: [f64; 2]| cauchy_edge_weight(&doubles(&x), Double(s), Double(b), &y).unwrap().0;
        assert!(grad_cauchy_edge_weight(&doubles(&x), Double(s), Double(b), &y, &mut gradient).is_ok());
        let h = 1.0E-6;
        let slope = (weight([x[0] + h, x[1]]) - weight([x[0] - h, x[1]])) / (2. * h);
        assert!((gradient[0].0 - slope).abs() < 1.0E-6);
        let slope = (weight([x[0], x[1] + h]) - weight([x[0], x[1] - h])) / (2. * h);
        assert!((gradient[1].0 - slope).abs() < 1.0E-6);
    }
}

#[test]
fn embedded_scales() {
    assert_eq!(estimate_embedded_scale_from_initial_scales(&singles(&[1., 3.])), singles(&[0.5, 1.5]));
    let p = params(&[(1., &[(1, 0.5)]), (1., &[(0, 0.75)])]);
    let m = matrix(2, &[&[0., 0.], &[3., 4.]]);
    let scales = estimate_embedded_scales_from_first_neighbour(&p, Single(1.), &m);
    assert_eq!(scales, singles(&[25., 75.]));
}

fn pair(w01: f32, w10: f32) -> EntropyOptim<Single, Single> {
    let p = params(&[(5., &[(1, w01)]), (5., &[(0, w10)]), (5., &[])]);
    EntropyOptim::new(&p, Single(1.), &matrix(2, &[&[0., 0.], &[3., 4.], &[8., 9.]]))
}

#[test]
fn optimization_starts_from_the_embedding() {
    let optim = pair(0.25, 0.75);
    assert_eq!(optim.edges.len(), 2);
    assert_eq!((optim.edges[0].0, optim.edges[0].1.node, optim.edges[0].1.weight), (0, 1, Single(0.25)));
    assert_eq!((optim.edges[1].0, optim.edges[1].1.node, optim.edges[1].1.weight), (1, 0, Single(0.75)));
    assert_eq!(optim.initial_scales, singles(&[5., 5., 5.]));
    assert_eq!(optim.embedded_scales, singles(&[1., 1., 1.]));
    let m = optim.get_embedded();
    assert_eq!((m.nrows(), m.ncols()), (3, 2));
    assert_eq!(m.row(1), &singles(&[3., 4.]));
}

#[test]
fn cross_entropy_of_a_pair() {
    // the embedded weight of both edges is 1/2
    let optim = pair(0.25, 0.75);
    let ce: Double = optim.ce_compute().unwrap();
    assert!((ce.0 - 2. * 2.0f64.ln()).abs() < 1.0E-12);
    let terms: f64 = (0..2).map(|k| optim.ce_edge_term::<Double>(k).unwrap().0).sum();
    assert!((ce.0 - terms).abs() < 1.0E-12);
    // equal points have the weight 1, and only the first part of the entropy
    let p = params(&[(5., &[(1, 0.25)]), (5., &[(0, 0.75)])]);
    let equal = EntropyOptim::new(&p, Single(1.), &matrix(1, &[&[2.], &[2.]]));
    assert_eq!(equal.ce_compute::<Double>().unwrap(), Double(0.));
}

#[test]
fn cross_entropy_is_refused() {
    assert_eq!(pair(f32::INFINITY, 0.5).ce_compute::<Double>().err(), Some(EntropyError::NotFinite));
    let p = params(&[(5., &[(1, 0.25)]), (5., &[(0, 0.75)])]);
    let nan = EntropyOptim::new(&p, Single(1.), &matrix(1, &[&[f32::NAN], &[2.]]));
    assert_eq!(nan.ce_compute::<Double>().err(), Some(EntropyError::WeightNotNormal));
    assert_eq!(nan.ce_edge_term::<Double>(0).err(), Some(EntropyError::WeightNotNormal));
}

#[test]
fn an_edge_step_moves_its_two_ends() {
    let mut optim = pair(0.25, 0.75);
    assert!(optim.ce_optim_edge_shannon(0, Double(0.1)).is_ok());
    let c = 2. * (-0.25 / 30. + 0.75 / (25.001 * 6.));
    let m = 3. * c * 0.1;
    assert!((optim.embedded[0][0].0 as f64 - -m).abs() < 1.0E-6);
    assert!((optim.embedded[1][0].0 as f64 - (3. + m)).abs() < 1.0E-6);
    let m = 4. * c * 0.1;
    assert!((optim.embedded[0][1].0 as f64 - -m).abs() < 1.0E-6);
    assert!((optim.embedded[1][1].0 as f64 - (4. + m)).abs() < 1.0E-6);
    assert_eq!(optim.embedded[2], singles(&[8., 9.]));
}

#[test]
fn an_edge_step_lowers_the_cross_entropy() {
    let p = params(&[(1., &[(1, 1.)]), (1., &[])]);
    let mut optim = EntropyOptim::new(&p, Single(1.), &matrix(1, &[&[0.], &[1.]]));
    let before: Double = optim.ce_compute().unwrap();
    assert!((before.0 - 2.0f64.ln()).abs() < 1.0E-6);
    assert!(optim.ce_optim_edge_shannon(0, Double(0.1)).is_ok());
    assert!(near(optim.embedded[0][0].0, 0.1, 1.0E-6));
    assert!(near(optim.embedded[1][0].0, 0.9, 1.0E-6));
    let after: Double = optim.ce_compute().unwrap();
    assert!(after.0 < before.0);
    // an edge of small probability pushes its ends apart
    let p = params(&[(1., &[(1, 0.1)]), (1., &[])]);
    let mut optim = EntropyOptim::new(&p, Single(1.), &matrix(1, &[&[0.], &[1.]]));
    let before: Double = optim.ce_compute().unwrap();
    assert!(optim.ce_optim_edge_shannon(0, Double(0.1)).is_ok());
    assert!(optim.embedded[1][0].0 - optim.embedded[0][0].0 > 1.);
    let after: Double = optim.ce_compute().unwrap();
    assert!(after.0 < before.0);
}

#[test]
fn an_edge_step_needs_its_own_edge_only() {
    // the second edge leads nowhere
    let mut optim = pair(0.25, 0.75);
    optim.edges[1].1.node = 7;
    optim.embedded[1].push(Single(6.));
    assert!(optim.ce_optim_edge_shannon(0, Double(0.1)).is_ok());
    assert_eq!(optim.embedded[1].len(), 3);
    assert_eq!(optim.embedded[1][2], Single(6.));
    let mut other = pair(0.25, 0.75);
    assert!(other.ce_optim_edge_shannon(0, Double(0.1)).is_ok());
    assert_eq!(optim.embedded[0], other.embedded[0]);
}

#[test]
fn the_optimization_lowers_the_cross_entropy() {
    let p = params(&[(1., &[(1, 0.9)]), (1., &[(0, 0.8), (2, 0.2)]), (1., &[(1, 1.)])]);
    let optim = EntropyOptim::new(&p, Single(1.), &matrix(2, &[&[0., 0.], &[2., 1.], &[3., 3.]]));
    let done = optim.optimize::<Double>().unwrap();
    assert!(done.final_ce.0 < done.initial_ce.0);
}

#[test]
fn an_iteration_keeps_the_centroid() {
    let mut optim = pair(0.25, 0.75);
    assert!(optim.gradient_iteration(Double(0.)).is_ok());
    assert_eq!(optim.embedded, pair(0.25, 0.75).embedded);
    assert!(optim.gradient_iteration(Double(0.1)).is_ok());
    for k in 0..2 {
        let sum = |o: &EntropyOptim<Single, Single>| o.embedded.iter().map(|y| y[k].0).sum::<f32>();
        assert!(near(sum(&optim), sum(&pair(0.25, 0.75)), 1.0E-5));
    }
}

#[test]
fn a_weight_above_one_is_refused() {
    let mut optim = pair(1.5, 0.75);
    assert_eq!(optim.ce_optim_edge_shannon(0, Double(0.1)), Err(EntropyError::WeightAboveOne));
    assert_eq!(optim.embedded[0], singles(&[0., 0.]));
    assert_eq!(optim.embedded[1], singles(&[3., 4.]));
    assert_eq!(optim.gradient_iteration(Double(0.1)), Err(EntropyError::WeightAboveOne));
    assert_eq!(optim.optimize::<Double>().err(), Some(EntropyError::WeightAboveOne));
}

#[test]
fn an_iteration_without_edges_moves_nothing() {
    let mut optim = pair(0.25, 0.75);
    optim.edges.clear();
    optim.embedded[1].push(Single(6.));
    assert!(optim.gradient_iteration(Double(0.1)).is_ok());
    assert_eq!(optim.embedded[1], singles(&[3., 4., 6.]));
    optim.embedded.clear();
    assert!(optim.gradient_iteration(Double(0.1)).is_ok());
    assert!(optim.embedded.is_empty());
}

#[test]
fn an_iteration_goes_along_every_edge() {
    let mut a = pair(0.25, 0.75);
    let mut b = pair(0.25, 0.75);
    assert!(a.gradient_iteration(Double(0.1)).is_ok());
    assert!(b.ce_optim_edge_shannon(0, Double(0.1)).is_ok());
    assert!(b.ce_optim_edge_shannon(1, Double(0.1)).is_ok());
    assert_eq!(a.embedded, b.embedded);
    assert_ne!(a.embedded, pair(0.25, 0.75).embedded);
}

#[test]
fn the_optimization_makes_ten_iterations() {
    let mut a = pair(0.25, 0.75);
    let initial: Double = a.ce_compute().unwrap();
    for k in 1..=10 {
        assert!(a.gradient_iteration(Double(0.1 / k as f64)).is_ok());
    }
    let done = pair(0.25, 0.75).optimize::<Double>().unwrap();
    assert_eq!(done.initial_ce, initial);
    assert_eq!(done.final_ce, a.ce_compute().unwrap());
    for i in 0..3 {
        assert_eq!(done.embedding.row(i), &a.embedded[i]);
    }
    assert_eq!(done.embedding.row(2), &singles(&[8., 9.]));
}

#[test]
fn embeds_a_small_graph() {
    let g = small_graph();
    let mut embedder = Embedder::<Single, Single>::new(&g, 2);
    assert!(embedder.get_emmbedded().is_none());
    assert_eq!(embedder.embed::<Double, _>(solve), Ok(1));
    let m = embedder.get_emmbedded().unwrap();
    assert_eq!((m.nrows(), m.ncols()), (6, 2));
    for i in 0..6 {
        assert_eq!(embedder.get_node_embedding(i), m.row(i));
        assert!(m.row(i).iter().all(|x| x.0.is_finite()));
    }
}

#[test]
fn an_embedding_is_an_optimized_initial_embedding() {
    let g = small_graph();
    let mut embedder = Embedder::<Single, Single>::new(&g, 2);
    let initial = embedder.get_dmap_initial_embedding(2, solve).unwrap();
    let done = embedder.entropy_optimize::<Double>(Single(1.), &initial).unwrap();
    assert!(embedder.get_emmbedded().is_none());
    assert_eq!(embedder.embed_measured::<Double, _>(solve), Ok((done.initial_ce, done.final_ce)));
    for i in 0..6 {
        assert_eq!(embedder.get_node_embedding(i), done.embedding.row(i));
    }
}

#[test]
fn laplacian_is_full_or_sparse() {
    let g = small_graph();
    let l = Embedder::<Single, Single>::new(&g, 2).get_laplacian().unwrap();
    assert!(matches!(l.sym_laplacian, MatRepr::Full(_)));
    assert_eq!(l.degrees.len(), 6);
    // rings of equal distances
    for n in [300, 301] {
        let ring = KGraph {
            neighbours: (0..n).map(|i| edges(&[((i + 1) % n, 1.), ((i + n - 1) % n, 1.)])).collect(),
        };
        let l = Embedder::<Single, Single>::new(&ring, 2).get_laplacian().unwrap();
        assert_eq!(l.degrees.len(), n);
        match l.sym_laplacian {
            MatRepr::Full(m) => {
                assert_eq!(n, 300);
                assert_eq!(m.row(7)[7], Single(1.));
                assert!(near(m.row(7)[8].0, -0.5, 1.0E-6));
                assert!(near(m.row(7)[9].0, 0., 1.0E-6));
            }
            MatRepr::Sparse(csr) => {
                assert_eq!(n, 301);
                assert_eq!(csr.indptr[8] - csr.indptr[7], 3);
                assert_eq!(csr.indices[csr.indptr[7]..csr.indptr[8]], [6, 7, 8]);
                assert!(near(csr.data[csr.indptr[7]].0, -0.5, 1.0E-6));
                assert!(near(csr.data[csr.indptr[7] + 1].0, 1., 1.0E-6));
            }
        }
    }
}

#[test]
fn the_solver_is_asked_for_the_precision() {
    let g = small_graph();
    let mut embedder = Embedder::<Single, Single>::new(&g, 2);
    let solver = |m: &MatRepr<Single>, precision: RangePrecision<Double>| -> Option<Svd<Single>> {
        assert!(matches!(m, MatRepr::Full(_)));
        assert_eq!(precision.epsil, Double(0.1));
        assert_eq!((precision.step, precision.max_rank), (5, 7));
        None
    };
    assert_eq!(embedder.embed(solver), Err(EmbedError::SvdFailed));
    assert!(embedder.get_emmbedded().is_none());
}

#[test]
fn embedding_is_refused() {
    let g = small_graph();
    let mut embedder = Embedder::<Single, Single>::new(&g, 2);
    let m = matrix(2, &[&[1., 1.]]);
    assert!(!embedder.has_node_params());
    let res = embedder.entropy_optimize::<Double>(Single(1.), &m);
    assert_eq!(res.err(), Some(EmbedError::NoNodeParams));
    let empty = |_: &MatRepr<Single>, _: RangePrecision<Double>| -> Option<Svd<Single>> {
        Some(Svd { sigma: vec![], u: matrix(2, &[&[1., 1.]]) })
    };
    assert_eq!(embedder.embed(empty), Err(EmbedError::Spectral(SpectralError::EmptySpectrum)));
    let short = |_: &MatRepr<Single>, _: RangePrecision<Double>| -> Option<Svd<Single>> {
        Some(Svd { sigma: singles(&[2., 1., 0.5, 0.]), u: matrix(4, &[&[1., 1., 1., 1.]]) })
    };
    assert_eq!(embedder.embed(short), Err(EmbedError::Spectral(SpectralError::ShapeMismatch)));
    let mut wide = Embedder::<Single, Single>::new(&g, 6);
    assert_eq!(wide.embed::<Double, _>(solve), Err(EmbedError::Spectral(SpectralError::TooFewEigenvalues)));
    let unsorted = graph(&[&[(1, 2.), (2, 1.)], &[(0, 2.)], &[(0, 1.)]]);
    let mut embedder = Embedder::<Single, Single>::new(&unsorted, 1);
    assert_eq!(embedder.embed::<Double, _>(solve), Err(EmbedError::Scale(ScaleError::NotSorted)));
    let nan = |_: &MatRepr<Single>, _: RangePrecision<Double>| -> Option<Svd<Single>> {
        let row: &[f32] = &[f32::NAN, f32::NAN, f32::NAN, f32::NAN];
        Some(Svd { sigma: singles(&[2., 1., 0.5, 0.]), u: matrix(4, &[row, row, row, row, row, row]) })
    };
    let mut embedder = Embedder::<Single, Single>::new(&g, 2);
    assert_eq!(embedder.embed(nan), Err(EmbedError::Entropy(EntropyError::WeightNotNormal)));
}

#[test]
fn coordinates_may_be_double() {
    let g = KGraph {
        neighbours: small_graph()
            .neighbours
            .iter()
            .map(|l| l.iter().map(|e| OutEdge::new(e.node, Double(e.weight.0 as f64))).collect())
            .collect(),
    };
    let mut embedder = Embedder::<Double, Single>::new(&g, 3);
    assert_eq!(embedder.embed::<Double, _>(solve), Ok(1));
    assert_eq!(embedder.get_node_embedding(5).len(), 3);
}

#[test]
fn the_same_graph_gives_the_same_embedding() {
    let g = small_graph();
    let mut a = Embedder::<Single, Single>::new(&g, 2);
    let mut b = Embedder::<Single, Single>::new(&g, 2);
    assert!(a.embed::<Double, _>(solve).is_ok());
    assert!(b.embed::<Double, _>(solve).is_ok());
    for i in 0..6 {
        assert_eq!(a.get_node_embedding(i), b.get_node_embedding(i));
    }
    // nor does an earlier embedding change a later one
    assert!(a.embed::<Double, _>(solve).is_ok());
    assert_eq!(a.get_node_embedding(4), b.get_node_embedding(4));
}

#[test]
fn a_refused_graph_leaves_the_embedding() {
    let g = small_graph();
    let mut embedder = Embedder::<Single, Single>::new(&g, 2);
    assert!(embedder.embed::<Double, _>(solve).is_ok());
    let before = embedder.get_node_embedding(3).clone();
    let none = |_: &MatRepr<Single>, _: RangePrecision<Double>| -> Option<Svd<Single>> { None };
    assert_eq!(embedder.embed(none), Err(EmbedError::SvdFailed));
    assert_eq!(embedder.get_node_embedding(3), &before);
}

#[test]
fn the_diagonal_of_a_laplacian_is_one() {
    let n = 12;
    let lists: Vec<Vec<(usize, f32)>> = (0..n).map(|i| vec![((i + 1) % n, 0.75), ((i + 5) % n, 0.25)]).collect();
    let views: Vec<(f32, &[(usize, f32)])> = lists.iter().map(|l| (1., l.as_slice())).collect();
    let p = params(&views);
    let (full, _) = full_laplacian(&p);
    let (csr, _) = sparse_laplacian(&p);
    for i in 0..n {
        assert_eq!(full.row(i)[i], Single(1.));
        let s = (csr.indptr[i]..csr.indptr[i + 1]).find(|s| csr.indices[*s] == i).unwrap();
        assert_eq!(csr.data[s], Single(1.));
    }
}

#[test]
fn square_roots_of_degrees_are_in_the_kernel() {
    let p = triangle();
    let (full, d) = full_laplacian(&p);
    let (csr, e) = sparse_laplacian(&p);
    for i in 0..3 {
        let sum: f32 = (0..3).map(|j| full.row(i)[j].0 * d[j].0.sqrt()).sum();
        assert!(near(sum, 0., 1.0E-6));
        let row = csr.indptr[i]..csr.indptr[i + 1];
        let sum: f32 = row.map(|s| csr.data[s].0 * e[csr.indices[s]].0.sqrt()).sum();
        assert!(near(sum, 0., 1.0E-6));
    }
}

#[test]
fn negated_functions_have_the_same_root() {
    let f = |x: Single| Single(x.0 * x.0 * x.0);
    let g = |x: Single| Single(-x.0 * x.0 * x.0);
    let a = dichotomy_solver(true, f, Single(0.), Single(5.), Single(7.));
    let b = dichotomy_solver(false, g, Single(0.), Single(5.), Single(-7.));
    assert_eq!(a.unwrap(), b.unwrap());
    let a = dichotomy_solver(false, f, Single(0.), Single(5.), Single(7.));
    let b = dichotomy_solver(true, g, Single(0.), Single(5.), Single(-7.));
    assert_eq!(a.unwrap_err(), DichotomyError::NotDecreasing);
    assert_eq!(b.unwrap_err(), DichotomyError::NotIncreasing);
}

#[test]
fn doubled_distances_double_the_scale() {
    let g = graph(&[&[(1, 1.), (2, 2.5), (3, 17.)], &[(0, 1.)], &[(1, 4.), (0, 5.)], &[(2, 3.)]]);
    let h = graph(&[&[(1, 2.), (2, 5.), (3, 34.)], &[(0, 2.)], &[(1, 8.), (0, 10.)], &[(2, 6.)]]);
    let p = get_scale_from_proba_normalisation::<Single, Single>(&g, &g.neighbours[0]).unwrap();
    let q = get_scale_from_proba_normalisation::<Single, Single>(&h, &h.neighbours[0]).unwrap();
    assert_eq!(q.scale, Single(2. * p.scale.0));
    for (a, b) in p.edges.iter().zip(&q.edges) {
        assert_eq!((a.node, a.weight), (b.node, b.weight));
    }
}

#[test]
fn weights_fall_with_distance() {
    let x = singles(&[1., 2.]);
    for b in [0.5, 1., 2.] {
        let weight = |y: &[f32]| cauchy_edge_weight(&x, Single(2.), Single(b), &singles(y)).unwrap().0;
        assert_eq!(weight(&[1., 2.]), 1.);
        assert!(near(weight(&[3., 2.]), 0.5, 1.0E-6));
        assert!(weight(&[1.5, 2.]) > weight(&[2., 2.5]));
        assert!(weight(&[9., 2.]) > weight(&[9., 3.]) && weight(&[9., 3.]) > 0.);
        let y = singles(&[-3., 0.25]);
        let there = cauchy_edge_weight(&x, Single(2.), Single(b), &y).unwrap();
        let back = cauchy_edge_weight(&y, Single(2.), Single(b), &x).unwrap();
        assert_eq!(there, back);
    }
}

#[test]
fn weights_do_not_depend_on_the_unit() {
    let (x, y) = (singles(&[1., -2.5]), singles(&[0.75, 3.]));
    let (x2, y2) = (singles(&[2., -5.]), singles(&[1.5, 6.]));
    for b in [0.5, 1., 2.] {
        let w = cauchy_edge_weight(&x, Single(0.7), Single(b), &y).unwrap();
        assert_eq!(cauchy_edge_weight(&x2, Single(1.4), Single(b), &y2).unwrap(), w);
    }
}

#[test]
fn probabilities_sum_to_one_and_fall() {
    let g = graph(&[&[(1, 1.), (2, 2.5), (3, 2.5), (2, 40.)], &[(0, 1.)], &[(1, 4.)], &[(2, 3.)]]);
    let p = get_scale_from_proba_normalisation::<Single, Single>(&g, &g.neighbours[0]).unwrap();
    assert!(near(p.edges.iter().map(|e| e.weight.0).sum::<f32>(), 1., 1.0E-6));
    for pair in p.edges.windows(2) {
        assert!(pair[0].weight.0 >= pair[1].weight.0 && pair[0].weight.0 <= 1.);
    }
}

#[test]
fn the_first_neighbour_does_not_push() {
    for (probability, b) in [(0.5, 1.), (0.8, 1.), (0.3, 2.), (0.6, 0.5)] {
        let p = params(&[(1., &[(1, probability)]), (1., &[(0, 0.5)])]);
        let m = matrix(2, &[&[0., 0.], &[3., 4.]]);
        let scales = estimate_embedded_scales_from_first_neighbour(&p, Single(b), &m);
        let w = cauchy_edge_weight(m.row(0), Single(scales[0].0.sqrt()), Single(b), m.row(1)).unwrap();
        assert!(near(w.0, probability, 1.0E-5));
    }
}
