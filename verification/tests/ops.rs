//! The operations on concrete values, computed by a small interpreter of array graphs.
use mlx_ops::array::Array;
use mlx_ops::base::{gather_nd_array, MlxTensor};
use mlx_ops::float::Slice;
use mlx_ops::max_pool::max_pool2d_with_indices_impl;
use mlx_ops::node::Node;
use mlx_ops::op::{
    BinaryOp, Const, Kernel, QuantPart, ReduceOp, Scalar, Scale, TernaryOp, UnaryOp,
};
use mlx_ops::options::{
    AttentionModuleOptions, ConvOptions, ConvTransposeOptions, DeformConvOptions, InterpolateMode,
    InterpolateOptions,
};
use mlx_ops::pool::{pool1d_strided, pool2d_strided};
use mlx_ops::primitive::{Mlx, MlxDevice, MlxTensorPrimitive};
use mlx_ops::qtensor::{
    DType, MlxQuantizedTensorPrimitive, QuantizationParametersPrimitive, TensorData,
    TensorPrimitive,
};
use mlx_ops::quant::{
    scheme_to_mlx_params, BlockSize, QuantLevel, QuantMode, QuantParam, QuantScheme, QuantStore,
    QuantValue,
};

#[derive(Clone, Copy, Debug, PartialEq)]
enum Val {
    I(i64),
    B(bool),
    F(f64),
}

#[derive(Clone, Debug, PartialEq)]
struct T {
    shape: Vec<usize>,
    data: Vec<Val>,
}

fn num(v: Val) -> f64 {
    match v {
        Val::I(x) => x as f64,
        Val::B(x) => {
            if x {
                1.0
            } else {
                0.0
            }
        }
        Val::F(x) => x,
    }
}

fn count(s: &[usize]) -> usize {
    s.iter().product()
}

fn unravel(s: &[usize], mut p: usize) -> Vec<usize> {
    let mut i = vec![0; s.len()];
    for k in (0..s.len()).rev() {
        i[k] = p % s[k];
        p /= s[k];
    }
    i
}

fn ravel(s: &[usize], i: &[usize]) -> usize {
    let mut p = 0;
    for k in 0..s.len() {
        p = p * s[k] + i[k];
    }
    p
}

fn dims(s: &[i32]) -> Vec<usize> {
    s.iter().map(|&x| x as usize).collect()
}

impl T {
    fn at(&self, i: &[usize]) -> Val {
        self.data[ravel(&self.shape, i)]
    }

    fn build(shape: Vec<usize>, f: impl Fn(&[usize]) -> Val) -> T {
        let n = count(&shape);
        let data = (0..n).map(|p| f(&unravel(&shape, p))).collect();
        T { shape, data }
    }

    /// What the operand contributes at an index of a broader array.
    fn look(&self, i: &[usize]) -> Val {
        let d = i.len() - self.shape.len();
        let j: Vec<usize> = (0..self.shape.len())
            .map(|k| if self.shape[k] == 1 { 0 } else { i[d + k] })
            .collect();
        self.at(&j)
    }

    fn nums(&self) -> Vec<f64> {
        self.data.iter().map(|&v| num(v)).collect()
    }
}

fn joint(a: &[usize], b: &[usize]) -> Vec<usize> {
    let r = a.len().max(b.len());
    (0..r)
        .map(|k| {
            let x = if k < r - a.len() { 1 } else { a[k - (r - a.len())] };
            let y = if k < r - b.len() { 1 } else { b[k - (r - b.len())] };
            if x == 1 {
                y
            } else {
                x
            }
        })
        .collect()
}

fn constant(c: &Const) -> f64 {
    match c {
        Const::Zero => 0.0,
        Const::One => 1.0,
        Const::NegInfinity => f64::NEG_INFINITY,
        Const::Ratio { num, den } => *num as f64 / *den as f64,
        Const::Reciprocal(n) => 1.0 / (*n as f32) as f64,
        Const::Value(s) => f64::from_bits(s.bits),
        Const::Single(s) => f64::from_bits(s.bits) as f32 as f64,
        Const::Scale(s) => scale_of(s),
    }
}

fn scale_of(s: &Scale) -> f64 {
    match s {
        Scale::Given(s) => f64::from_bits(s.bits) as f32 as f64,
        Scale::InvSqrt(d) => (1.0 / (*d as f64).sqrt()) as f32 as f64,
    }
}

fn sigmoid(x: f64) -> f64 {
    1.0 / (1.0 + (-x).exp())
}

fn softmax_row(row: &[f64]) -> Vec<f64> {
    let top = row.iter().cloned().fold(f64::NEG_INFINITY, f64::max);
    let e: Vec<f64> = row.iter().map(|x| (x - top).exp()).collect();
    let sum: f64 = e.iter().sum();
    e.iter().map(|x| x / sum).collect()
}

fn matmul(a: &T, b: &T) -> T {
    let (n, k) = (a.shape.len(), b.shape.len());
    let outer = joint(&a.shape[..n - 2], &b.shape[..k - 2]);
    let inner = a.shape[n - 1];
    let mut shape = outer.clone();
    shape.push(a.shape[n - 2]);
    shape.push(b.shape[k - 1]);
    let pick = |s: &[usize], o: &[usize]| -> Vec<usize> {
        let r = s.len() - 2;
        let d = o.len() - r;
        (0..r).map(|x| if s[x] == 1 { 0 } else { o[d + x] }).collect()
    };
    T::build(shape, |i| {
        let r = outer.len();
        let mut sum = 0.0;
        for x in 0..inner {
            let mut ia = pick(&a.shape, &i[..r]);
            ia.extend([i[r], x]);
            let mut ib = pick(&b.shape, &i[..r]);
            ib.extend([x, i[r + 1]]);
            sum += num(a.at(&ia)) * num(b.at(&ib));
        }
        Val::F(sum)
    })
}

struct Env {
    inputs: Vec<T>,
}

fn group(row: &[f64], bits: i32) -> (Vec<u64>, f64, f64) {
    let low = row.iter().cloned().fold(f64::INFINITY, f64::min);
    let high = row.iter().cloned().fold(f64::NEG_INFINITY, f64::max);
    let steps = ((1u64 << bits) - 1) as f64;
    let scale = if high > low { (high - low) / steps } else { 1.0 };
    let q = row.iter().map(|x| ((x - low) / scale).round() as u64).collect();
    (q, scale, low)
}

impl Env {
    fn eval(&self, n: &Node) -> T {
        match n {
            Node::Input { id, shape } => {
                let t = self.inputs[*id as usize].clone();
                assert_eq!(t.shape, dims(shape));
                t
            }
            Node::Constant { value } => T { shape: vec![], data: vec![Val::F(constant(value))] },
            Node::Zeros { shape } => T::build(dims(shape), |_| Val::F(0.0)),
            Node::IntZeros { shape } => T::build(dims(shape), |_| Val::I(0)),
            Node::Ints { data, shape } => T {
                shape: dims(shape),
                data: data.iter().map(|&x| Val::I(x as i64)).collect(),
            },
            Node::Bools { data, shape } => T {
                shape: dims(shape),
                data: data.iter().map(|&x| Val::B(x)).collect(),
            },
            Node::Scaled { values, scales, shape } => T {
                shape: dims(shape),
                data: values
                    .iter()
                    .zip(scales)
                    .map(|(&v, &s)| Val::F((v as f32 * f32::from_bits(s)) as f64))
                    .collect(),
            },
            Node::Unary { op, src } => {
                let t = self.eval(src);
                let f = |x: f64| match op {
                    UnaryOp::Sigmoid => sigmoid(x),
                    UnaryOp::Log => x.ln(),
                    UnaryOp::Tanh => x.tanh(),
                    UnaryOp::LeakyRelu(s) => {
                        let slope = f64::from_bits(s.bits) as f32 as f64;
                        x.max(slope * x)
                    }
                    UnaryOp::CastFloat => x,
                };
                T { shape: t.shape.clone(), data: t.nums().iter().map(|&x| Val::F(f(x))).collect() }
            }
            Node::Binary { op, lhs, rhs } => {
                let (a, b) = (self.eval(lhs), self.eval(rhs));
                T::build(joint(&a.shape, &b.shape), |i| match (op, a.look(i), b.look(i)) {
                    (BinaryOp::Add, Val::I(x), Val::I(y)) => Val::I(x + y),
                    (BinaryOp::Multiply, Val::I(x), Val::I(y)) => Val::I(x * y),
                    (BinaryOp::FloorDivide, Val::I(x), Val::I(y)) => Val::I(x.div_euclid(y)),
                    (BinaryOp::Remainder, Val::I(x), Val::I(y)) => Val::I(x.rem_euclid(y)),
                    (BinaryOp::Add, x, y) => Val::F(num(x) + num(y)),
                    (BinaryOp::Multiply, x, y) => Val::F(num(x) * num(y)),
                    (BinaryOp::Divide, x, y) => Val::F(num(x) / num(y)),
                    (BinaryOp::Maximum, x, y) => Val::F(num(x).max(num(y))),
                    (BinaryOp::Minimum, x, y) => Val::F(num(x).min(num(y))),
                    (BinaryOp::Greater, x, y) => Val::B(num(x) > num(y)),
                    other => panic!("{:?}", other),
                })
            }
            Node::Ternary { op, a, b, c } => {
                let (a, b, c) = (self.eval(a), self.eval(b), self.eval(c));
                let shape = joint(&joint(&a.shape, &b.shape), &c.shape);
                T::build(shape, |i| match op {
                    TernaryOp::Where => {
                        if a.look(i) == Val::B(true) {
                            b.look(i)
                        } else {
                            c.look(i)
                        }
                    }
                    TernaryOp::Clip => {
                        Val::F(num(a.look(i)).max(num(b.look(i))).min(num(c.look(i))))
                    }
                })
            }
            Node::Permute { src, axes } => {
                let t = self.eval(src);
                let shape = axes.iter().map(|&a| t.shape[a as usize]).collect();
                T::build(shape, |i| {
                    let mut j = vec![0; i.len()];
                    for k in 0..i.len() {
                        j[axes[k] as usize] = i[k];
                    }
                    t.at(&j)
                })
            }
            Node::Reshape { src, shape } => {
                let t = self.eval(src);
                assert_eq!(count(&t.shape), count(&dims(shape)));
                T { shape: dims(shape), data: t.data }
            }
            Node::Broadcast { src, shape } => {
                let t = self.eval(src);
                T::build(dims(shape), |i| t.look(i))
            }
            Node::Concatenate { srcs, axis } => {
                let ts: Vec<T> = srcs.iter().map(|s| self.eval(s)).collect();
                let axis = *axis as usize;
                let mut shape = ts[0].shape.clone();
                shape[axis] = ts.iter().map(|t| t.shape[axis]).sum();
                T::build(shape, |i| {
                    let mut j = i.to_vec();
                    for t in &ts {
                        if j[axis] < t.shape[axis] {
                            return t.at(&j);
                        }
                        j[axis] -= t.shape[axis];
                    }
                    unreachable!()
                })
            }
            Node::Pad { src, low, high, value } => {
                let t = self.eval(src);
                let v = self.eval(value).data[0];
                let shape = (0..low.len())
                    .map(|k| t.shape[k] + (low[k] + high[k]) as usize)
                    .collect();
                T::build(shape, |i| {
                    let mut j = vec![0; i.len()];
                    for k in 0..i.len() {
                        let x = i[k] as i64 - low[k] as i64;
                        if x < 0 || x >= t.shape[k] as i64 {
                            return v;
                        }
                        j[k] = x as usize;
                    }
                    t.at(&j)
                })
            }
            Node::Strided { src, shape, strides } => {
                let t = self.eval(src);
                T::build(dims(shape), |i| {
                    let p: i64 = (0..i.len()).map(|k| i[k] as i64 * strides[k]).sum();
                    t.data[p as usize]
                })
            }
            Node::Reduce { op, src, first, last } => {
                let t = self.eval(src);
                let inner = t.shape[*first..*last].to_vec();
                let mut shape = t.shape[..*first].to_vec();
                shape.extend_from_slice(&t.shape[*last..]);
                T::build(shape, |i| {
                    let lane: Vec<Val> = (0..count(&inner))
                        .map(|q| {
                            let mut j = i[..*first].to_vec();
                            j.extend(unravel(&inner, q));
                            j.extend_from_slice(&i[*first..]);
                            t.at(&j)
                        })
                        .collect();
                    let xs: Vec<f64> = lane.iter().map(|&v| num(v)).collect();
                    match op {
                        ReduceOp::Mean => Val::F(xs.iter().sum::<f64>() / xs.len() as f64),
                        ReduceOp::Max => {
                            Val::F(xs.iter().cloned().fold(f64::NEG_INFINITY, f64::max))
                        }
                        ReduceOp::Sum => {
                            if lane.iter().all(|v| matches!(v, Val::I(_))) {
                                Val::I(xs.iter().sum::<f64>() as i64)
                            } else {
                                Val::F(xs.iter().sum())
                            }
                        }
                        ReduceOp::ArgMax => {
                            let mut best = 0;
                            for q in 1..xs.len() {
                                if xs[q] > xs[best] {
                                    best = q;
                                }
                            }
                            Val::I(best as i64)
                        }
                    }
                })
            }
            Node::Take { src, indices, axis } => {
                let (t, x) = (self.eval(src), self.eval(indices));
                let axis = *axis as usize;
                let mut shape = t.shape[..axis].to_vec();
                shape.extend_from_slice(&x.shape);
                shape.extend_from_slice(&t.shape[axis + 1..]);
                let r = x.shape.len();
                T::build(shape, |i| {
                    let mut j = i[..axis].to_vec();
                    j.push(num(x.at(&i[axis..axis + r])) as usize);
                    j.extend_from_slice(&i[axis + r..]);
                    t.at(&j)
                })
            }
            Node::ScatterAdd { base, indices, updates } => {
                let (mut t, x, u) = (self.eval(base), self.eval(indices), self.eval(updates));
                for q in 0..x.data.len() {
                    let p = num(x.data[q]) as usize;
                    t.data[p] = Val::F(num(t.data[p]) + num(u.data[q]));
                }
                t
            }
            Node::Slice { src, start, step, shape } => {
                let t = self.eval(src);
                T::build(dims(shape), |i| {
                    let j: Vec<usize> = (0..i.len())
                        .map(|k| (start[k] as i64 + i[k] as i64 * step[k] as i64) as usize)
                        .collect();
                    t.at(&j)
                })
            }
            Node::Matmul { lhs, rhs } => matmul(&self.eval(lhs), &self.eval(rhs)),
            Node::Softmax { src } => {
                let t = self.eval(src);
                let n = t.shape[t.shape.len() - 1];
                let data = t
                    .nums()
                    .chunks(n)
                    .flat_map(|row| softmax_row(row))
                    .map(Val::F)
                    .collect();
                T { shape: t.shape, data }
            }
            Node::Kernel { op, srcs, shape } => {
                let args: Vec<T> = srcs.iter().map(|s| self.eval(s)).collect();
                let r = self.kernel(op, &args);
                assert_eq!(r.shape, dims(shape));
                r
            }
        }
    }

    fn kernel(&self, op: &Kernel, args: &[T]) -> T {
        match op {
            Kernel::Conv1d { stride, padding, dilation, groups } => {
                let wide = |t: &T| {
                    let s = &t.shape;
                    T { shape: vec![s[0], s[1], 1, s[2]], data: t.data.clone() }
                };
                let r = conv(
                    &wide(&args[0]),
                    &wide(&args[1]),
                    (*stride, 1),
                    (*padding, 0),
                    (*dilation, 1),
                    *groups,
                );
                let s = &r.shape;
                T { shape: vec![s[0], s[1], s[3]], data: r.data.clone() }
            }
            Kernel::Conv2d { stride, padding, dilation, groups } => {
                conv(&args[0], &args[1], *stride, *padding, *dilation, *groups)
            }
            Kernel::Attention { scale, causal } => {
                let (q, k, v) = (&args[0], &args[1], &args[2]);
                let sc = scale_of(scale);
                let (lq, lk, d) = (q.shape[2], k.shape[2], q.shape[3]);
                let share = q.shape[1] / k.shape[1];
                let shape = vec![q.shape[0], q.shape[1], lq, v.shape[3]];
                T::build(shape, |i| {
                    let row: Vec<f64> = (0..lk)
                        .map(|j| {
                            let mut s = 0.0;
                            for x in 0..d {
                                s += num(q.at(&[i[0], i[1], i[2], x]))
                                    * num(k.at(&[i[0], i[1] / share, j, x]));
                            }
                            s *= sc;
                            if args.len() > 3 {
                                s += num(args[3].look(&[i[0], i[1], i[2], j]));
                            }
                            if *causal && j + lq > i[2] + lk {
                                s = f64::NEG_INFINITY;
                            }
                            s
                        })
                        .collect();
                    let w = softmax_row(&row);
                    Val::F(
                        (0..lk).map(|j| w[j] * num(v.at(&[i[0], i[1] / share, j, i[3]]))).sum(),
                    )
                })
            }
            Kernel::Quantize { group_size, bits, part } => {
                let t = &args[0];
                let last = t.shape[t.shape.len() - 1];
                let per = 32 / *bits as usize;
                let mut data = Vec::new();
                for row in t.nums().chunks(last) {
                    let mut values = Vec::new();
                    for g in row.chunks(*group_size as usize) {
                        let (q, s, b) = group(g, *bits);
                        match part {
                            QuantPart::Packed => values.extend(q),
                            QuantPart::Scales => data.push(Val::F(s)),
                            QuantPart::Biases => data.push(Val::F(b)),
                        }
                    }
                    for w in values.chunks(per) {
                        let word = w
                            .iter()
                            .enumerate()
                            .fold(0u64, |acc, (k, x)| acc | (x << (k as i32 * *bits)));
                        data.push(Val::I(word as i64));
                    }
                }
                let mut shape = t.shape.clone();
                *shape.last_mut().unwrap() = match part {
                    QuantPart::Packed => last / per,
                    _ => last / *group_size as usize,
                };
                T { shape, data }
            }
            Kernel::Dequantize { group_size, bits } => {
                dequantize(&args[0], &args[1], &args[2], *group_size, *bits)
            }
            Kernel::QuantizedMatmul { transpose, group_size, bits } => {
                assert!(!transpose);
                matmul(&args[0], &dequantize(&args[1], &args[2], &args[3], *group_size, *bits))
            }
        }
    }
}

fn dequantize(w: &T, scales: &T, biases: &T, group_size: i32, bits: i32) -> T {
    let per = 32 / bits as usize;
    let mut shape = w.shape.clone();
    *shape.last_mut().unwrap() *= per;
    T::build(shape, |i| {
        let r = i.len();
        let mut j = i.to_vec();
        j[r - 1] = i[r - 1] / per;
        let word = num(w.at(&j)) as u64;
        let x = (word >> ((i[r - 1] % per) as i32 * bits)) & ((1 << bits) - 1);
        j[r - 1] = i[r - 1] / group_size as usize;
        Val::F(x as f64 * num(scales.at(&j)) + num(biases.at(&j)))
    })
}

fn conv(x: &T, w: &T, st: (i32, i32), pad: (i32, i32), dil: (i32, i32), groups: i32) -> T {
    let (n, h, wd, c) = (x.shape[0], x.shape[1], x.shape[2], x.shape[3]);
    let (o, kh, kw, depth) = (w.shape[0], w.shape[1], w.shape[2], w.shape[3]);
    assert_eq!(c, depth * groups as usize);
    let places = |l: usize, k: usize, s: i32, p: i32, d: i32| -> usize {
        ((l as i32 + 2 * p - d * (k as i32 - 1) - 1) / s + 1) as usize
    };
    let oh = places(h, kh, st.0, pad.0, dil.0);
    let ow = places(wd, kw, st.1, pad.1, dil.1);
    T::build(vec![n, oh, ow, o], |i| {
        let base = i[3] / (o / groups as usize) * depth;
        let mut sum = 0.0;
        for a in 0..kh {
            for b in 0..kw {
                let y = i[1] as i32 * st.0 + a as i32 * dil.0 - pad.0;
                let z = i[2] as i32 * st.1 + b as i32 * dil.1 - pad.1;
                if y < 0 || z < 0 || y >= h as i32 || z >= wd as i32 {
                    continue;
                }
                for d in 0..depth {
                    sum += num(x.at(&[i[0], y as usize, z as usize, base + d]))
                        * num(w.at(&[i[3], a, b, d]));
                }
            }
        }
        Val::F(sum)
    })
}

fn floats(shape: &[usize], data: &[f64]) -> T {
    assert_eq!(count(shape), data.len());
    T { shape: shape.to_vec(), data: data.iter().map(|&x| Val::F(x)).collect() }
}

fn range(shape: &[usize]) -> T {
    let n = count(shape);
    floats(shape, &(0..n).map(|x| x as f64).collect::<Vec<_>>())
}

/// A float pattern without ties.
fn mixed(shape: &[usize], seed: u64) -> T {
    let n = count(shape);
    let mut x = seed;
    let data: Vec<f64> = (0..n)
        .map(|_| {
            x = x.wrapping_mul(6364136223846793005).wrapping_add(1442695040888963407);
            ((x >> 33) % 2001) as f64 / 500.0 - 2.0
        })
        .collect();
    floats(shape, &data)
}

impl Env {
    fn new() -> Env {
        Env { inputs: Vec::new() }
    }

    fn array(&mut self, t: T) -> Array {
        let shape = t.shape.iter().map(|&x| x as i32).collect();
        self.inputs.push(t);
        Array::input(self.inputs.len() as u64 - 1, shape)
    }

    fn tensor(&mut self, t: T) -> MlxTensorPrimitive {
        MlxTensorPrimitive::new(self.array(t))
    }

    fn value(&self, a: &Array) -> T {
        let t = self.eval(a.node());
        assert_eq!(t.shape, dims(a.shape()));
        t
    }

    fn of(&self, t: &MlxTensorPrimitive) -> T {
        let v = self.value(&t.array);
        assert_eq!(&v.shape, t.shape());
        v
    }
}

fn close(a: &T, b: &T) {
    assert_eq!(a.shape, b.shape);
    for (x, y) in a.nums().iter().zip(b.nums()) {
        assert!((x - y).abs() < 1e-6 || x == &y, "{} and {}", x, y);
    }
}

fn scalar(x: f64) -> Scalar {
    Scalar { bits: x.to_bits() }
}

// Base operations.

#[test]
fn reshape_to_keeps_the_elements_in_order() {
    let mut env = Env::new();
    let t = MlxTensor { array: env.array(range(&[2, 3])), device: MlxDevice::Cpu };
    let r = t.reshape_to(&[3, 2]);
    assert_eq!(env.value(&r.array), range(&[3, 2]));
    assert_eq!(r.device, MlxDevice::Cpu);
    let back = r.reshape_to(&[2, 3]);
    assert_eq!(env.value(&back.array), range(&[2, 3]));
}

#[test]
fn reshape_to_infers_one_extent() {
    let mut env = Env::new();
    let t = MlxTensor { array: env.array(range(&[2, 3, 4])), device: MlxDevice::Gpu };
    assert_eq!(t.reshape_to(&[-1, 6]).array.shape(), &vec![4, 6]);
    assert_eq!(t.reshape_to(&[2, -1]).array.shape(), &vec![2, 12]);
    assert_eq!(t.reshape_to(&[-1]).array.shape(), &vec![24]);
    let none = MlxTensor { array: env.array(range(&[0, 3])), device: MlxDevice::Gpu };
    assert_eq!(none.reshape_to(&[5, -1]).array.shape(), &vec![5, 0]);
}

#[test]
fn the_last_of_two_reshapes_counts() {
    let mut env = Env::new();
    let t = MlxTensor { array: env.array(range(&[2, 3, 4])), device: MlxDevice::Cpu };
    let twice = t.reshape_to(&[6, -1]).reshape_to(&[-1, 8]);
    let once = t.reshape_to(&[-1, 8]);
    assert_eq!(twice.array.shape(), &vec![3, 8]);
    assert_eq!(env.value(&twice.array), env.value(&once.array));
    assert_eq!(twice.device, once.device);
}

#[test]
fn reshape_to_a_complete_shape_does_not_count_the_elements() {
    // More elements than a machine word counts, none of them computed.
    let big = i32::MAX;
    let t = MlxTensor { array: Array::input(0, vec![big, big, big]), device: MlxDevice::Cpu };
    let r = t.reshape_to(&[big, 1, big, big]);
    assert_eq!(r.array.shape(), &vec![big, 1, big, big]);
}

#[test]
fn transpose_all_reverses_the_axes() {
    let mut env = Env::new();
    let t = MlxTensor { array: env.array(range(&[2, 3, 4])), device: MlxDevice::Gpu };
    let r = t.transpose_all();
    let v = env.value(&r.array);
    assert_eq!(v.shape, vec![4, 3, 2]);
    assert_eq!(v.at(&[3, 2, 1]), Val::F(23.0));
    assert_eq!(v.at(&[1, 0, 1]), Val::F(13.0));
    assert_eq!(env.value(&r.transpose_all().array), range(&[2, 3, 4]));
}

#[test]
fn broadcast_to_repeats() {
    let mut env = Env::new();
    let t = MlxTensor { array: env.array(floats(&[1, 2], &[5.0, 7.0])), device: MlxDevice::Gpu };
    let v = env.value(&t.broadcast_to(&[2, 3, 2]).array);
    assert_eq!(v.shape, vec![2, 3, 2]);
    assert_eq!(v.nums(), [5.0, 7.0].repeat(6));
    assert_eq!(env.value(&t.broadcast_to(&[1, 2]).array), floats(&[1, 2], &[5.0, 7.0]));
}

#[test]
fn concat_joins_along_an_axis() {
    let mut env = Env::new();
    let a = MlxTensor { array: env.array(range(&[2, 1])), device: MlxDevice::Cpu };
    let b = MlxTensor { array: env.array(floats(&[2, 2], &[10.0, 11.0, 12.0, 13.0])), device: MlxDevice::Gpu };
    let r = mlx_ops::base::concat(&[&a, &b, &a], 1);
    assert_eq!(r.device, MlxDevice::Cpu);
    let v = env.value(&r.array);
    assert_eq!(v.shape, vec![2, 4]);
    assert_eq!(v.nums(), vec![0.0, 10.0, 11.0, 0.0, 1.0, 12.0, 13.0, 1.0]);
    let alone = mlx_ops::base::concat(&[&b], 0);
    assert_eq!(env.value(&alone.array), env.value(&b.array));
}

fn ints(shape: &[usize], data: &[i64]) -> T {
    T { shape: shape.to_vec(), data: data.iter().map(|&x| Val::I(x)).collect() }
}

#[test]
fn gather_nd_selects_elements() {
    let mut env = Env::new();
    let data = env.array(range(&[2, 3]));
    let indices = env.array(ints(&[3, 2], &[0, 0, 1, 2, 1, 0]));
    let r = gather_nd_array(&data, &[2, 3], &indices, &[3, 2]);
    assert_eq!(env.value(&r).nums(), vec![0.0, 5.0, 3.0]);
}

#[test]
fn gather_nd_selects_slices() {
    let mut env = Env::new();
    let data = env.array(range(&[2, 3, 2]));
    let indices = env.array(ints(&[2, 1, 1], &[1, 0]));
    let r = gather_nd_array(&data, &[2, 3, 2], &indices, &[2, 1, 1]);
    let v = env.value(&r);
    assert_eq!(v.shape, vec![2, 1, 3, 2]);
    assert_eq!(v.nums(), vec![6.0, 7.0, 8.0, 9.0, 10.0, 11.0, 0.0, 1.0, 2.0, 3.0, 4.0, 5.0]);
    let indices = env.array(ints(&[2, 2], &[0, 2, 1, 1]));
    let r = gather_nd_array(&data, &[2, 3, 2], &indices, &[2, 2]);
    assert_eq!(env.value(&r), floats(&[2, 2], &[4.0, 5.0, 8.0, 9.0]));
}

#[test]
fn gather_nd_without_coordinates_repeats_the_data() {
    let mut env = Env::new();
    let data = env.array(range(&[2]));
    let indices = env.array(ints(&[3, 0], &[]));
    let r = gather_nd_array(&data, &[2], &indices, &[3, 0]);
    assert_eq!(env.value(&r), floats(&[3, 2], &[0.0, 1.0, 0.0, 1.0, 0.0, 1.0]));
}

// Pooling.

/// Pooling of an `[N, C, H, W]` tensor, window by window.
fn naive_pool(
    t: &T,
    k: [usize; 2],
    s: [usize; 2],
    p: [usize; 2],
    fill: f64,
    f: impl Fn(&[f64]) -> f64,
) -> T {
    let oh = (t.shape[2] + 2 * p[0] - k[0]) / s[0] + 1;
    let ow = (t.shape[3] + 2 * p[1] - k[1]) / s[1] + 1;
    T::build(vec![t.shape[0], t.shape[1], oh, ow], |i| {
        let mut xs = Vec::new();
        for a in 0..k[0] {
            for b in 0..k[1] {
                let (y, x) = (i[2] * s[0] + a, i[3] * s[1] + b);
                let inside = y >= p[0]
                    && x >= p[1]
                    && y < t.shape[2] + p[0]
                    && x < t.shape[3] + p[1];
                xs.push(if inside { num(t.at(&[i[0], i[1], y - p[0], x - p[1]])) } else { fill });
            }
        }
        Val::F(f(&xs))
    })
}

fn mean(xs: &[f64]) -> f64 {
    xs.iter().sum::<f64>() / xs.len() as f64
}

fn top(xs: &[f64]) -> f64 {
    xs.iter().cloned().fold(f64::NEG_INFINITY, f64::max)
}

#[test]
fn strided_pooling_reduces_every_window() {
    let mut env = Env::new();
    let x = env.array(range(&[1, 4, 1]));
    let r = pool1d_strided(&x, 2, 2, ReduceOp::Max);
    assert_eq!(env.value(&r), floats(&[1, 2, 1], &[1.0, 3.0]));
    let x = env.array(range(&[1, 3, 3, 1]));
    let r = pool2d_strided(&x, [2, 2], [1, 1], ReduceOp::Mean);
    assert_eq!(env.value(&r), floats(&[1, 2, 2, 1], &[2.0, 3.0, 5.0, 6.0]));
}

#[test]
fn avg_pool1d_counts_the_padding() {
    let mut env = Env::new();
    let x = env.tensor(floats(&[1, 1, 4], &[1.0, 2.0, 3.0, 4.0]));
    let r = Mlx::avg_pool1d(x, 2, 2, 1, true, false);
    assert_eq!(env.of(&r), floats(&[1, 1, 3], &[0.5, 2.5, 2.0]));
}

#[test]
fn avg_pool2d_averages_windows() {
    let mut env = Env::new();
    let t = mixed(&[2, 3, 5, 4], 1);
    let x = env.tensor(t.clone());
    let r = Mlx::avg_pool2d(x, [3, 2], [2, 1], [1, 1], true, false);
    close(&env.of(&r), &naive_pool(&t, [3, 2], [2, 1], [1, 1], 0.0, mean));
    let x = env.tensor(t.clone());
    let r = Mlx::avg_pool2d(x, [2, 2], [2, 2], [0, 0], false, true);
    close(&env.of(&r), &naive_pool(&t, [2, 2], [2, 2], [0, 0], 0.0, mean));
}

#[test]
fn max_pool1d_pads_with_negative_infinity() {
    let mut env = Env::new();
    let x = env.tensor(floats(&[1, 2, 3], &[-1.0, -2.0, -3.0, 4.0, 6.0, 5.0]));
    let r = Mlx::max_pool1d(x, 2, 1, 1, 1, false);
    assert_eq!(
        env.of(&r),
        floats(&[1, 2, 4], &[-1.0, -1.0, -2.0, -3.0, 4.0, 6.0, 6.0, 5.0])
    );
}

#[test]
fn max_pool2d_takes_the_largest() {
    let mut env = Env::new();
    let t = mixed(&[2, 2, 6, 5], 2);
    let x = env.tensor(t.clone());
    let r = Mlx::max_pool2d(x, [2, 3], [2, 2], [1, 0], [1, 1], false);
    close(&env.of(&r), &naive_pool(&t, [2, 3], [2, 2], [1, 0], f64::NEG_INFINITY, top));
}

#[test]
fn max_pool1d_with_indices_has_zero_indices() {
    let mut env = Env::new();
    let x = env.tensor(floats(&[1, 1, 4], &[1.0, 4.0, 2.0, 3.0]));
    let r = Mlx::max_pool1d_with_indices(x, 2, 2, 0, 1, false);
    assert_eq!(env.of(&r.output), floats(&[1, 1, 2], &[4.0, 3.0]));
    assert_eq!(env.of(&r.indices), ints(&[1, 1, 2], &[0, 0]));
}

#[test]
fn max_positions_of_a_channels_last_array() {
    let mut env = Env::new();
    let x = env.array(floats(
        &[1, 2, 4, 1],
        &[1.0, 9.0, 3.0, 4.0, 5.0, 6.0, 7.0, 8.0],
    ));
    let (output, indices) = max_pool2d_with_indices_impl(&x, [2, 2], [1, 2]);
    assert_eq!(env.value(&output), floats(&[1, 1, 2, 1], &[9.0, 8.0]));
    assert_eq!(env.value(&indices), ints(&[1, 1, 2, 1], &[1, 7]));
}

#[test]
fn max_pool2d_with_indices_records_where_the_maxima_are() {
    let mut env = Env::new();
    let t = mixed(&[2, 3, 4, 5], 3);
    let (k, s, p) = ([2, 3], [1, 2], [1, 1]);
    let x = env.tensor(t.clone());
    let r = Mlx::max_pool2d_with_indices(x, k, s, p, [1, 1], false);
    let (out, idx) = (env.of(&r.output), env.of(&r.indices));
    close(&out, &naive_pool(&t, k, s, p, f64::NEG_INFINITY, top));
    let big = [2, 4 + 2 * p[0], 5 + 2 * p[1], 3];
    for q in 0..out.data.len() {
        let o = unravel(&out.shape, q);
        let at = unravel(&big, num(idx.data[q]) as usize);
        assert_eq!((at[0], at[3]), (o[0], o[1]));
        assert!(o[2] * s[0] <= at[1] && at[1] < o[2] * s[0] + k[0]);
        assert!(o[3] * s[1] <= at[2] && at[2] < o[3] * s[1] + k[1]);
        let v = t.at(&[at[0], at[3], at[1] - p[0], at[2] - p[1]]);
        assert_eq!(num(v), num(out.data[q]));
    }
}

#[test]
fn max_pool2d_gradient_goes_to_the_maxima() {
    let mut env = Env::new();
    let t = mixed(&[2, 2, 4, 4], 4);
    let (k, s, p) = ([3, 2], [2, 1], [1, 1]);
    let x = env.tensor(t.clone());
    let r = Mlx::max_pool2d_with_indices(x, k, s, p, [1, 1], false);
    let shape = r.output.shape().clone();
    let g = mixed(&shape, 5);
    let idx = env.of(&r.indices);
    let x = env.tensor(t.clone());
    let grad = env.tensor(g.clone());
    let b = Mlx::max_pool2d_with_indices_backward(x, k, s, p, [1, 1], false, grad, r.indices);
    let mut expected = T::build(t.shape.clone(), |_| Val::F(0.0));
    for q in 0..g.data.len() {
        let at = unravel(&[2, 4 + 2 * p[0], 4 + 2 * p[1], 2], num(idx.data[q]) as usize);
        let e = ravel(&t.shape, &[at[0], at[3], at[1] - p[0], at[2] - p[1]]);
        expected.data[e] = Val::F(num(expected.data[e]) + num(g.data[q]));
    }
    close(&env.of(&b.x_grad), &expected);
}

#[test]
fn avg_pool2d_gradient_is_shared_by_the_window() {
    let mut env = Env::new();
    let s = [1, 2, 3, 4];
    let (k, st, p) = ([2, 2], [1, 2], [1, 0]);
    let t = mixed(&s, 6);
    let out = naive_pool(&t, k, st, p, 0.0, mean);
    let g = mixed(&out.shape, 7);
    let x = env.tensor(t);
    let grad = env.tensor(g.clone());
    let r = Mlx::avg_pool2d_backward(x, grad, k, st, p, true, false);
    let expected = T::build(s.to_vec(), |i| {
        let mut sum = 0.0;
        for oh in 0..out.shape[2] {
            for ow in 0..out.shape[3] {
                let (y, z) = (i[2] + p[0], i[3] + p[1]);
                let here = oh * st[0] <= y
                    && y < oh * st[0] + k[0]
                    && ow * st[1] <= z
                    && z < ow * st[1] + k[1];
                if here {
                    sum += num(g.at(&[i[0], i[1], oh, ow])) / 4.0;
                }
            }
        }
        Val::F(sum)
    });
    close(&env.of(&r), &expected);
}

fn dot(a: &T, b: &T) -> f64 {
    assert_eq!(a.shape, b.shape);
    a.nums().iter().zip(b.nums()).map(|(x, y)| x * y).sum()
}

#[test]
fn max_pool2d_gradient_loses_nothing() {
    let mut env = Env::new();
    let t = mixed(&[2, 3, 5, 4], 21);
    let (k, s, p) = ([2, 3], [1, 2], [1, 2]);
    let x = env.tensor(t.clone());
    let r = Mlx::max_pool2d_with_indices(x, k, s, p, [1, 1], false);
    let out = env.of(&r.output);
    let g = mixed(&out.shape, 22);
    let x = env.tensor(t.clone());
    let grad = env.tensor(g.clone());
    let b = Mlx::max_pool2d_with_indices_backward(x, k, s, p, [1, 1], false, grad, r.indices);
    let back = env.of(&b.x_grad);
    let (sum, kept): (f64, f64) = (g.nums().iter().sum(), back.nums().iter().sum());
    assert!((sum - kept).abs() < 1e-6);
    assert!((dot(&back, &t) - dot(&g, &out)).abs() < 1e-6);
}

#[test]
fn avg_pool2d_gradient_is_the_adjoint() {
    let mut env = Env::new();
    let t = mixed(&[2, 2, 4, 5], 23);
    let (k, s, p) = ([3, 2], [2, 1], [1, 1]);
    let y = env.tensor(t.clone());
    let r = Mlx::avg_pool2d(y, k, s, p, true, false);
    let out = env.of(&r);
    let g = mixed(&out.shape, 24);
    let x = env.tensor(mixed(&t.shape, 25));
    let grad = env.tensor(g.clone());
    let r = Mlx::avg_pool2d_backward(x, grad, k, s, p, true, false);
    assert!((dot(&out, &g) - dot(&t, &env.of(&r))).abs() < 1e-6);
}

#[test]
fn adaptive_pooling_gives_the_asked_size() {
    let mut env = Env::new();
    let x = env.tensor(range(&[1, 1, 7]));
    let r = Mlx::adaptive_avg_pool1d(x, 3);
    assert_eq!(env.of(&r), floats(&[1, 1, 3], &[1.0, 3.0, 5.0]));
    let t = mixed(&[1, 2, 5, 8], 8);
    let x = env.tensor(t.clone());
    let r = Mlx::adaptive_avg_pool2d(x, [2, 4]);
    close(&env.of(&r), &naive_pool(&t, [3, 2], [2, 2], [0, 0], 0.0, mean));
    let x = env.tensor(t.clone());
    let r = Mlx::adaptive_avg_pool2d(x, [5, 8]);
    close(&env.of(&r), &t);
}

#[test]
fn adaptive_avg_pool2d_backward_is_zero() {
    let mut env = Env::new();
    let x = env.tensor(range(&[1, 1, 2, 2]));
    let g = env.tensor(range(&[1, 1, 1, 1]));
    let r = Mlx::adaptive_avg_pool2d_backward(x, g);
    assert_eq!(env.of(&r), floats(&[1, 1, 2, 2], &[0.0; 4]));
}

#[test]
fn windows_of_an_adaptive_pooling_cover_the_axis() {
    for extent in 1..20usize {
        for output in 1..=extent {
            let stride = extent / output;
            let kernel = extent - (output - 1) * stride;
            let mut env = Env::new();
            let x = env.tensor(range(&[1, 1, extent]));
            let r = env.of(&Mlx::adaptive_avg_pool1d(x, output));
            assert_eq!(r.shape, vec![1, 1, output]);
            for y in 0..extent {
                assert!((0..output).any(|o| o * stride <= y && y < o * stride + kernel));
            }
        }
    }
}

#[test]
fn adaptive_windows_lie_side_by_side() {
    let mut env = Env::new();
    let t = mixed(&[1, 2, 6, 8], 26);
    let x = env.tensor(t.clone());
    let adaptive = Mlx::adaptive_avg_pool2d(x, [3, 2]);
    let x = env.tensor(t.clone());
    let pooled = Mlx::avg_pool2d(x, [2, 4], [2, 4], [0, 0], true, false);
    assert_eq!(env.of(&adaptive), env.of(&pooled));
    let x = env.tensor(t.clone());
    close(&env.of(&Mlx::adaptive_avg_pool2d(x, [6, 8])), &t);
}

#[test]
fn channels_move_last_and_back() {
    let mut env = Env::new();
    let t = range(&[2, 3, 4, 5]);
    let last = env.array(t.clone()).transpose_axes(&[0, 2, 3, 1]);
    assert_eq!(last.shape(), &vec![2, 4, 5, 3]);
    assert_eq!(env.value(&last.transpose_axes(&[0, 3, 1, 2])), t);
    let t = range(&[2, 3, 4]);
    let last = env.array(t.clone()).transpose_axes(&[0, 2, 1]);
    assert_eq!(env.value(&last.transpose_axes(&[0, 2, 1])), t);
}

// Convolution.

fn naive_conv2d(x: &T, w: &T, b: Option<&T>, o: &ConvOptions<2>) -> T {
    let last = |t: &T| {
        let s = &t.shape;
        T::build(vec![s[0], s[2], s[3], s[1]], |i| t.at(&[i[0], i[3], i[1], i[2]]))
    };
    let pair = |a: [usize; 2]| (a[0] as i32, a[1] as i32);
    let y = conv(
        &last(x),
        &last(w),
        pair(o.stride),
        pair(o.padding),
        pair(o.dilation),
        o.groups as i32,
    );
    let s = &y.shape;
    T::build(vec![s[0], s[3], s[1], s[2]], |i| {
        let v = num(y.at(&[i[0], i[2], i[3], i[1]]));
        Val::F(v + b.map_or(0.0, |b| num(b.at(&[i[1]]))))
    })
}

#[test]
fn conv1d_slides_the_kernel() {
    let mut env = Env::new();
    let x = env.tensor(floats(&[1, 1, 4], &[1.0, 2.0, 3.0, 4.0]));
    let w = env.tensor(floats(&[1, 1, 2], &[1.0, 10.0]));
    let o = ConvOptions { stride: [1], padding: [0], dilation: [1], groups: 1 };
    let r = Mlx::conv1d(x, w, None, o);
    assert_eq!(env.of(&r), floats(&[1, 1, 3], &[21.0, 32.0, 43.0]));
}

#[test]
fn conv1d_adds_the_bias_of_the_filter() {
    let mut env = Env::new();
    let x = env.tensor(floats(&[1, 2, 3], &[1.0, 2.0, 3.0, 4.0, 5.0, 6.0]));
    let w = env.tensor(floats(&[2, 2, 1], &[1.0, 1.0, 1.0, -1.0]));
    let b = env.tensor(floats(&[2], &[100.0, 200.0]));
    let o = ConvOptions { stride: [2], padding: [1], dilation: [1], groups: 1 };
    let r = Mlx::conv1d(x, w, Some(b), o);
    assert_eq!(env.of(&r), floats(&[1, 2, 3], &[100.0, 107.0, 100.0, 200.0, 197.0, 200.0]));
}

#[test]
fn conv2d_with_all_options() {
    let mut env = Env::new();
    let (xt, wt, bt) = (mixed(&[2, 4, 6, 7], 9), mixed(&[6, 2, 3, 2], 10), mixed(&[6], 11));
    let o = ConvOptions { stride: [2, 1], padding: [1, 2], dilation: [1, 2], groups: 2 };
    let (x, w, b) =
        (env.tensor(xt.clone()), env.tensor(wt.clone()), env.tensor(bt.clone()));
    let r = Mlx::conv2d(x, w, Some(b), o);
    close(&env.of(&r), &naive_conv2d(&xt, &wt, Some(&bt), &o));
    let (x, w) = (env.tensor(xt.clone()), env.tensor(wt.clone()));
    let r = Mlx::conv2d(x, w, None, o);
    close(&env.of(&r), &naive_conv2d(&xt, &wt, None, &o));
}

#[test]
fn convolutions_that_are_not_computed_give_the_input_back() {
    let mut env = Env::new();
    let t = range(&[1, 1, 2]);
    let o3 = ConvOptions { stride: [1; 3], padding: [0; 3], dilation: [1; 3], groups: 1 };
    let (x, w) = (env.tensor(t.clone()), env.tensor(t.clone()));
    assert_eq!(env.of(&Mlx::conv3d(x, w, None, o3)), t);
    let o = ConvTransposeOptions {
        stride: [1],
        padding: [0],
        padding_out: [0],
        dilation: [1],
        groups: 1,
    };
    let (x, w) = (env.tensor(t.clone()), env.tensor(t.clone()));
    assert_eq!(env.of(&Mlx::conv_transpose1d(x, w, None, o)), t);
    let o = ConvTransposeOptions {
        stride: [1; 2],
        padding: [0; 2],
        padding_out: [0; 2],
        dilation: [1; 2],
        groups: 1,
    };
    let (x, w) = (env.tensor(t.clone()), env.tensor(t.clone()));
    assert_eq!(env.of(&Mlx::conv_transpose2d(x, w, None, o)), t);
    let o = ConvTransposeOptions {
        stride: [1; 3],
        padding: [0; 3],
        padding_out: [0; 3],
        dilation: [1; 3],
        groups: 1,
    };
    let (x, w) = (env.tensor(t.clone()), env.tensor(t.clone()));
    assert_eq!(env.of(&Mlx::conv_transpose3d(x, w, None, o)), t);
}

#[test]
fn deform_conv2d_is_a_single_zero() {
    let mut env = Env::new();
    let o = DeformConvOptions {
        stride: [1; 2],
        padding: [0; 2],
        dilation: [1; 2],
        weight_groups: 1,
        offset_groups: 1,
    };
    let zero = floats(&[1, 1, 1, 1], &[0.0]);
    let (x, y, w) = (
        env.tensor(range(&[1, 1, 2, 2])),
        env.tensor(range(&[1, 1, 2, 2])),
        env.tensor(range(&[1, 1, 2, 2])),
    );
    assert_eq!(env.of(&Mlx::deform_conv2d(x, y, w, None, None, o)), zero);
    let (x, y, w, g) = (
        env.tensor(range(&[1, 1, 2, 2])),
        env.tensor(range(&[1, 1, 2, 2])),
        env.tensor(range(&[1, 1, 2, 2])),
        env.tensor(range(&[1, 1, 2, 2])),
    );
    let r = Mlx::deform_conv2d_backward(x, y, w, None, None, g, o);
    assert_eq!(env.of(&r.x_grad), zero);
    assert_eq!(env.of(&r.offset_grad), zero);
    assert_eq!(env.of(&r.weight_grad), zero);
    assert_eq!(env.of(&r.mask_grad.unwrap()), zero);
    assert_eq!(env.of(&r.bias_grad.unwrap()), zero);
}

// Attention.

struct Attention {
    q: T,
    k: T,
    v: T,
    mask: Option<T>,
    bias: Option<T>,
}

fn bools(shape: &[usize], f: impl Fn(&[usize]) -> bool) -> T {
    T::build(shape.to_vec(), |i| Val::B(f(i)))
}

impl Attention {
    fn new() -> Attention {
        Attention {
            q: mixed(&[2, 2, 3, 4], 12),
            k: mixed(&[2, 2, 3, 4], 13),
            v: mixed(&[2, 2, 3, 2], 14),
            mask: None,
            bias: None,
        }
    }

    fn run(&self, env: &mut Env, o: AttentionModuleOptions) -> MlxTensorPrimitive {
        let q = env.tensor(self.q.clone());
        let k = env.tensor(self.k.clone());
        let v = env.tensor(self.v.clone());
        let mask = self.mask.clone().map(|t| env.tensor(t));
        let bias = self.bias.clone().map(|t| env.tensor(t));
        Mlx::attention(q, k, v, mask, bias, o)
    }

    fn naive(&self, scale: f64, cap: Option<f64>, causal: bool) -> T {
        let (s, e) = (&self.q.shape, self.v.shape[3]);
        let lk = self.k.shape[2];
        T::build(vec![s[0], s[1], s[2], e], |i| {
            let row: Vec<f64> = (0..lk)
                .map(|j| {
                    let mut x: f64 = (0..s[3])
                        .map(|d| {
                            num(self.q.at(&[i[0], i[1], i[2], d]))
                                * num(self.k.at(&[i[0], i[1], j, d]))
                        })
                        .sum();
                    x *= scale;
                    if let Some(c) = cap {
                        x = (x / c).tanh() * c;
                    }
                    let at = [i[0], i[1], i[2], j];
                    if let Some(b) = &self.bias {
                        x += num(b.look(&at));
                    }
                    if let Some(b) = &self.mask {
                        if b.look(&at) == Val::B(true) {
                            x = f64::NEG_INFINITY;
                        }
                    }
                    if causal && j > i[2] {
                        x = f64::NEG_INFINITY;
                    }
                    x
                })
                .collect();
            let w = softmax_row(&row);
            Val::F((0..lk).map(|j| w[j] * num(self.v.at(&[i[0], i[1], j, i[3]]))).sum())
        })
    }
}

fn uses_kernel(r: &MlxTensorPrimitive) -> bool {
    matches!(&**r.array.node(), Node::Kernel { op: Kernel::Attention { .. }, .. })
}

const PLAIN: AttentionModuleOptions =
    AttentionModuleOptions { scale: None, softcap: None, is_causal: false };

#[test]
fn attention_defaults_to_the_inverse_root_scale() {
    let mut env = Env::new();
    let a = Attention::new();
    let r = a.run(&mut env, PLAIN);
    assert!(uses_kernel(&r));
    close(&env.of(&r), &a.naive(0.5, None, false));
    let r = a.run(&mut env, AttentionModuleOptions { scale: Some(scalar(2.0)), ..PLAIN });
    close(&env.of(&r), &a.naive(2.0, None, false));
}

#[test]
fn attention_mask_and_bias_are_added() {
    let mut env = Env::new();
    let mut a = Attention::new();
    a.mask = Some(bools(&[2, 1, 3, 3], |i| i[2] != i[3] && i[3] == 1));
    let r = a.run(&mut env, PLAIN);
    assert!(uses_kernel(&r));
    close(&env.of(&r), &a.naive(0.5, None, false));
    a.bias = Some(mixed(&[1, 2, 3, 3], 15));
    let r = a.run(&mut env, PLAIN);
    assert!(uses_kernel(&r));
    close(&env.of(&r), &a.naive(0.5, None, false));
    a.mask = None;
    let r = a.run(&mut env, PLAIN);
    assert!(uses_kernel(&r));
    close(&env.of(&r), &a.naive(0.5, None, false));
}

#[test]
fn causal_attention_uses_the_kernel() {
    let mut env = Env::new();
    let a = Attention::new();
    let r = a.run(&mut env, AttentionModuleOptions { is_causal: true, ..PLAIN });
    match &**r.array.node() {
        Node::Kernel { op, srcs, .. } => {
            assert_eq!(*op, Kernel::Attention { scale: Scale::InvSqrt(4), causal: true });
            assert_eq!(srcs.len(), 3);
        }
        other => panic!("{:?}", other),
    }
    close(&env.of(&r), &a.naive(0.5, None, true));
}

#[test]
fn softcap_needs_single_steps() {
    let mut env = Env::new();
    let a = Attention::new();
    let o = AttentionModuleOptions { softcap: Some(scalar(1.5)), ..PLAIN };
    let r = a.run(&mut env, o);
    assert!(!uses_kernel(&r));
    close(&env.of(&r), &a.naive(0.5, Some(1.5), false));
}

#[test]
fn causal_with_a_mask_or_a_bias_needs_single_steps() {
    let mut env = Env::new();
    let mut a = Attention::new();
    a.mask = Some(bools(&[1, 1, 3, 3], |i| i[2] == 2 && i[3] == 0));
    let o = AttentionModuleOptions { is_causal: true, ..PLAIN };
    let r = a.run(&mut env, o);
    assert!(!uses_kernel(&r));
    close(&env.of(&r), &a.naive(0.5, None, true));
    a.mask = None;
    a.bias = Some(mixed(&[3, 3], 16));
    let r = a.run(&mut env, o);
    assert!(!uses_kernel(&r));
    close(&env.of(&r), &a.naive(0.5, None, true));
}

#[test]
fn a_masked_key_has_no_influence() {
    for cap in [None, Some(scalar(1.5))] {
        let mut env = Env::new();
        let mut a = Attention::new();
        a.mask = Some(bools(&[3, 3], |i| i[1] == 0 && i[0] > 0));
        let o = AttentionModuleOptions { softcap: cap, ..PLAIN };
        let r = a.run(&mut env, o);
        assert_eq!(uses_kernel(&r), cap.is_none());
        let before = env.of(&r);
        for b in 0..2 {
            for h in 0..2 {
                let p = ravel(&a.k.shape, &[b, h, 0, 0]);
                a.k.data[p] = Val::F(100.0);
                let p = ravel(&a.v.shape, &[b, h, 0, 1]);
                a.v.data[p] = Val::F(50.0);
            }
        }
        let r = a.run(&mut env, o);
        let after = env.of(&r);
        for p in 0..before.data.len() {
            let i = unravel(&before.shape, p);
            if i[2] > 0 {
                assert_eq!(before.data[p], after.data[p]);
            } else {
                assert!(before.data[p] != after.data[p]);
            }
        }
    }
}

#[test]
fn a_broader_mask_or_bias_repeats_the_scores() {
    // One batch entry of queries and keys under masks and biases of two.
    let mut one = Attention::new();
    one.q = mixed(&[1, 2, 3, 4], 41);
    one.k = mixed(&[1, 2, 3, 4], 42);
    one.v = mixed(&[1, 2, 3, 2], 43);
    let mut two = Attention::new();
    two.q = T::build(vec![2, 2, 3, 4], |i| one.q.look(i));
    two.k = T::build(vec![2, 2, 3, 4], |i| one.k.look(i));
    two.v = T::build(vec![2, 2, 3, 2], |i| one.v.look(i));
    let mask = bools(&[2, 1, 3, 3], |i| i[0] == 1 && i[3] == 1 && i[2] > 0);
    let bias = mixed(&[2, 2, 1, 3], 44);
    for (m, b) in [(true, false), (false, true), (true, true)] {
        let mut env = Env::new();
        for a in [&mut one, &mut two] {
            a.mask = if m { Some(mask.clone()) } else { None };
            a.bias = if b { Some(bias.clone()) } else { None };
        }
        let o = AttentionModuleOptions { softcap: Some(scalar(1.5)), is_causal: true, ..PLAIN };
        let r = one.run(&mut env, o);
        assert_eq!(r.shape(), &vec![2, 2, 3, 2]);
        close(&env.of(&r), &two.naive(0.5, Some(1.5), true));
    }
}

#[test]
fn a_mask_may_add_an_axis() {
    let mut env = Env::new();
    let mut a = Attention::new();
    let o = AttentionModuleOptions { softcap: Some(scalar(1.5)), ..PLAIN };
    a.mask = Some(bools(&[2, 1, 1, 3, 3], |i| i[0] == 1 && i[4] == 0));
    let r = a.run(&mut env, o);
    assert_eq!(r.shape(), &vec![2, 2, 2, 3, 2]);
    let out = env.of(&r);
    for h in 0..2 {
        a.mask = Some(bools(&[1, 1, 3, 3], |i| h == 1 && i[3] == 0));
        let part = a.naive(0.5, Some(1.5), false);
        let at = |i: &[usize]| out.at(&[h, i[0], i[1], i[2], i[3]]);
        close(&T::build(part.shape.clone(), at), &part);
    }
}

#[test]
fn an_idle_mask_changes_nothing() {
    let mut env = Env::new();
    let mut a = Attention::new();
    let o = AttentionModuleOptions { softcap: Some(scalar(1.5)), ..PLAIN };
    let without = a.run(&mut env, o);
    a.mask = Some(bools(&[1, 1, 3, 3], |_| false));
    let with = a.run(&mut env, o);
    assert_eq!(env.of(&with), env.of(&without));
}

/// Rows up to `last` are those of `t`, the others new.
fn new_rows_after(t: &T, last: usize, seed: u64) -> T {
    let other = mixed(&t.shape, seed);
    T::build(t.shape.clone(), |i| if i[2] <= last { t.at(i) } else { other.at(i) })
}

#[test]
fn the_future_has_no_influence() {
    for (cap, masked) in [(None, false), (None, true), (Some(scalar(1.5)), true)] {
        let mut env = Env::new();
        let mut a = Attention::new();
        if masked {
            a.mask = Some(bools(&[3, 3], |i| i[0] == 2 && i[1] == 0));
        }
        let o = AttentionModuleOptions { softcap: cap, is_causal: true, ..PLAIN };
        let r = a.run(&mut env, o);
        assert_eq!(uses_kernel(&r), cap.is_none() && !masked);
        let before = env.of(&r);
        a.k = new_rows_after(&a.k, 1, 31);
        a.v = new_rows_after(&a.v, 1, 32);
        let r = a.run(&mut env, o);
        let after = env.of(&r);
        for p in 0..before.data.len() {
            let last = unravel(&before.shape, p)[2] == 2;
            assert_eq!(before.data[p] == after.data[p], !last);
        }
    }
}

#[test]
fn the_causal_flag_is_a_mask() {
    let masks = [None, Some(bools(&[1, 1, 3, 3], |i| i[2] == 2 && i[3] == 1))];
    for (cap, own) in [(None, 0), (None, 1), (Some(scalar(1.5)), 0), (Some(scalar(1.5)), 1)] {
        let mut env = Env::new();
        let mut a = Attention::new();
        a.mask = masks[own].clone();
        let flag = AttentionModuleOptions { softcap: cap, is_causal: true, ..PLAIN };
        let with_flag = a.run(&mut env, flag);
        a.mask = Some(bools(&[3, 3], |i| {
            i[1] > i[0] || own == 1 && (i[0], i[1]) == (2, 1)
        }));
        let free = AttentionModuleOptions { softcap: cap, ..PLAIN };
        let with_mask = a.run(&mut env, free);
        close(&env.of(&with_flag), &env.of(&with_mask));
    }
}

#[test]
fn a_mask_is_a_bias() {
    for cap in [None, Some(scalar(1.5))] {
        for own in [None, Some(mixed(&[2, 2, 3, 3], 33))] {
            let mut env = Env::new();
            let mut a = Attention::new();
            let mask = bools(&[2, 2, 3, 3], |i| (i[0] + i[2] + i[3]) % 3 == 1);
            let o = AttentionModuleOptions { softcap: cap, ..PLAIN };
            a.mask = Some(mask.clone());
            a.bias = own.clone();
            let with_mask = a.run(&mut env, o);
            a.mask = None;
            a.bias = Some(T::build(mask.shape.clone(), |i| {
                let b = own.as_ref().map_or(0.0, |t| num(t.at(i)));
                Val::F(if mask.at(i) == Val::B(true) { f64::NEG_INFINITY } else { b })
            }));
            let with_bias = a.run(&mut env, o);
            assert_eq!(uses_kernel(&with_bias), cap.is_none());
            assert_eq!(env.of(&with_mask), env.of(&with_bias));
        }
    }
}

#[test]
fn the_default_scale_can_be_given() {
    for cap in [None, Some(scalar(1.5))] {
        let mut env = Env::new();
        let a = Attention::new();
        let o = AttentionModuleOptions { softcap: cap, ..PLAIN };
        let default = a.run(&mut env, o);
        let given = a.run(&mut env, AttentionModuleOptions { scale: Some(scalar(0.5)), ..o });
        assert_eq!(env.of(&default), env.of(&given));
    }
}

#[test]
fn attention_stays_between_the_values() {
    let mut env = Env::new();
    let mut a = Attention::new();
    a.mask = Some(bools(&[3, 3], |i| i[0] == i[1]));
    for cap in [None, Some(scalar(1.5))] {
        let r = a.run(&mut env, AttentionModuleOptions { softcap: cap, ..PLAIN });
        let out = env.of(&r);
        for p in 0..out.data.len() {
            let i = unravel(&out.shape, p);
            let seen: Vec<f64> = (0..3)
                .filter(|&j| j != i[2])
                .map(|j| num(a.v.at(&[i[0], i[1], j, i[3]])))
                .collect();
            let x = num(out.data[p]);
            assert!(seen.iter().any(|&v| v <= x) && seen.iter().any(|&v| x <= v));
        }
    }
}

// Activations.

#[test]
fn activations_element_by_element() {
    let xs = [-2.0, -0.5, 0.0, 0.25, 3.0];
    let run = |f: &dyn Fn(MlxTensorPrimitive) -> MlxTensorPrimitive| -> Vec<f64> {
        let mut env = Env::new();
        let t = env.tensor(floats(&[5], &xs));
        env.of(&f(t)).nums()
    };
    assert_eq!(run(&Mlx::relu), vec![0.0, 0.0, 0.0, 0.25, 3.0]);
    assert_eq!(run(&Mlx::sigmoid), xs.iter().map(|&x| sigmoid(x)).collect::<Vec<_>>());
    assert_eq!(
        run(&Mlx::gelu),
        xs.iter().map(|&x| x * sigmoid(x * 1.702)).collect::<Vec<_>>()
    );
    assert_eq!(
        run(&Mlx::log_sigmoid),
        xs.iter().map(|&x| sigmoid(x).ln()).collect::<Vec<_>>()
    );
    assert_eq!(
        run(&|t| Mlx::leaky_relu(t, scalar(0.25))),
        vec![-0.5, -0.125, 0.0, 0.25, 3.0]
    );
    assert_eq!(
        run(&|t| Mlx::leaky_relu(t, scalar(2.0))),
        vec![-2.0, -0.5, 0.0, 0.5, 6.0]
    );
    assert_eq!(
        run(&|t| Mlx::hard_sigmoid(t, scalar(0.5), scalar(0.5))),
        vec![0.0, 0.25, 0.5, 0.625, 1.0]
    );
}

#[test]
fn prelu_scales_what_is_negative() {
    let mut env = Env::new();
    let t = env.tensor(floats(&[2, 2], &[-2.0, 4.0, -6.0, -8.0]));
    let alpha = env.tensor(floats(&[2], &[0.5, 0.25]));
    let r = Mlx::prelu(t, alpha);
    assert_eq!(env.of(&r), floats(&[2, 2], &[-1.0, 4.0, -3.0, -2.0]));
}

#[test]
fn relu_gradient_passes_where_the_input_is_positive() {
    let mut env = Env::new();
    let x = env.tensor(floats(&[4], &[-1.0, 0.0, 2.0, 3.0]));
    let g = env.tensor(floats(&[4], &[5.0, 6.0, 7.0, 8.0]));
    let r = Mlx::relu_backward(x, g);
    assert_eq!(env.of(&r), floats(&[4], &[0.0, 0.0, 7.0, 8.0]));
}

#[test]
fn gelu_gradient_passes_through() {
    let mut env = Env::new();
    let x = env.tensor(floats(&[2], &[-1.0, 1.0]));
    let g = env.tensor(floats(&[2], &[5.0, 6.0]));
    assert_eq!(env.of(&Mlx::gelu_backward(x, g)), floats(&[2], &[5.0, 6.0]));
}

// Lookup and resampling.

#[test]
fn embedding_looks_rows_up() {
    let mut env = Env::new();
    let w = env.tensor(range(&[4, 2]));
    let i = env.tensor(ints(&[2, 2], &[3, 0, 1, 3]));
    let r = Mlx::embedding(w, i);
    assert_eq!(
        env.of(&r),
        floats(&[2, 2, 2], &[6.0, 7.0, 0.0, 1.0, 2.0, 3.0, 6.0, 7.0])
    );
}

#[test]
fn embedding_backward_gives_the_weights() {
    let mut env = Env::new();
    let w = env.tensor(range(&[4, 2]));
    let g = env.tensor(range(&[1, 1, 2]));
    let i = env.tensor(ints(&[1, 1], &[3]));
    assert_eq!(env.of(&Mlx::embedding_backward(w, g, i)), range(&[4, 2]));
}

#[test]
fn interpolation_is_not_computed() {
    let mut env = Env::new();
    let o = InterpolateOptions { mode: InterpolateMode::Nearest, align_corners: true };
    let x = env.tensor(range(&[1, 1, 2, 2]));
    assert_eq!(env.of(&Mlx::interpolate(x, [4, 4], o)), range(&[1, 1, 2, 2]));
    let (x, g) = (env.tensor(range(&[1, 1, 2, 2])), env.tensor(range(&[1, 1, 4, 4])));
    let r = Mlx::interpolate_backward(x, g, [4, 4], o);
    assert_eq!(env.of(&r), floats(&[1, 1, 2, 2], &[0.0; 4]));
}

// Float operations.

fn wide_slice() -> Slice {
    Slice { start: 0, end: None, step: 1 }
}

#[test]
fn float_operations_move_elements() {
    let mut env = Env::new();
    let t = range(&[2, 3]);
    let r = Mlx::float_swap_dims(env.tensor(t.clone()), 0, 1);
    assert_eq!(env.of(&r).nums(), vec![0.0, 3.0, 1.0, 4.0, 2.0, 5.0]);
    let r = Mlx::float_swap_dims(r, 1, 0);
    assert_eq!(env.of(&r), t);
    let r = Mlx::float_permute(env.tensor(range(&[2, 3, 4])), &[2, 0, 1]);
    let v = env.of(&r);
    assert_eq!(v.shape, vec![4, 2, 3]);
    assert_eq!(v.at(&[1, 1, 2]), Val::F(21.0));
    let r = Mlx::float_permute(r, &[1, 2, 0]);
    assert_eq!(env.of(&r), range(&[2, 3, 4]));
    let r = Mlx::float_flip(env.tensor(t.clone()), &[1]);
    assert_eq!(env.of(&r).nums(), vec![2.0, 1.0, 0.0, 5.0, 4.0, 3.0]);
    let r = Mlx::float_flip(r, &[1]);
    assert_eq!(env.of(&r), t);
    let r = Mlx::float_flip(env.tensor(t.clone()), &[0, 1]);
    assert_eq!(env.of(&r).nums(), vec![5.0, 4.0, 3.0, 2.0, 1.0, 0.0]);
    let i = env.tensor(ints(&[2], &[2, 0]));
    let r = Mlx::float_select(env.tensor(t.clone()), 1, i);
    assert_eq!(env.of(&r), floats(&[2, 2], &[2.0, 0.0, 5.0, 3.0]));
    let r = Mlx::float_expand(env.tensor(range(&[1, 2])), &[2, 2]);
    assert_eq!(env.of(&r).nums(), vec![0.0, 1.0, 0.0, 1.0]);
    let r = Mlx::float_reshape(env.tensor(t.clone()), &[6]);
    assert_eq!(env.of(&r), range(&[6]));
    let r = Mlx::float_matmul(
        env.tensor(floats(&[1, 2], &[1.0, 2.0])),
        env.tensor(floats(&[2, 1], &[3.0, 4.0])),
    );
    assert_eq!(env.of(&r), floats(&[1, 1], &[11.0]));
}

#[test]
fn slices_count_from_either_end() {
    let mut env = Env::new();
    let mut run = |slices: &[Slice]| -> Vec<f64> {
        let t = env.tensor(range(&[10]));
        let r = Mlx::float_slice(t, slices);
        env.of(&r).nums()
    };
    let s = |start, end, step| Slice { start, end, step };
    assert_eq!(run(&[]), (0..10).map(|x| x as f64).collect::<Vec<_>>());
    assert_eq!(run(&[wide_slice()]), (0..10).map(|x| x as f64).collect::<Vec<_>>());
    assert_eq!(run(&[s(2, Some(5), 1)]), vec![2.0, 3.0, 4.0]);
    assert_eq!(run(&[s(-3, None, 1)]), vec![7.0, 8.0, 9.0]);
    assert_eq!(run(&[s(0, Some(-8), 1)]), vec![0.0, 1.0]);
    assert_eq!(run(&[s(1, Some(8), 3)]), vec![1.0, 4.0, 7.0]);
    assert_eq!(run(&[s(2, Some(8), -2)]), vec![7.0, 5.0, 3.0]);
    assert_eq!(run(&[s(0, None, -4)]), vec![9.0, 5.0, 1.0]);
    assert_eq!(run(&[s(-99, Some(99), 9)]), vec![0.0, 9.0]);
    assert_eq!(run(&[s(5, Some(5), 1)]), Vec::<f64>::new());
}

// Quantized tensors.

fn block(g: u8) -> QuantLevel {
    QuantLevel::Block(BlockSize { extents: [g, 1, 1, 1, 1], rank: 1 })
}

fn scheme(value: QuantValue, store: QuantStore, level: QuantLevel) -> QuantScheme {
    QuantScheme { value, param: QuantParam::F32, store, level, mode: QuantMode::Symmetric }
}

fn q8(level: QuantLevel) -> QuantScheme {
    scheme(QuantValue::Q8S, QuantStore::Native, level)
}

#[test]
fn scheme_parameters() {
    assert_eq!(scheme_to_mlx_params(&q8(block(64)), 1000), (8, 64));
    assert_eq!(scheme_to_mlx_params(&q8(QuantLevel::Tensor), 128), (8, 128));
    let s = scheme(QuantValue::Q8F, QuantStore::Native, block(32));
    assert_eq!(scheme_to_mlx_params(&s, 0), (8, 32));
    let s = scheme(QuantValue::Q4S, QuantStore::PackedU32(0), block(32));
    assert_eq!(scheme_to_mlx_params(&s, 64), (4, 32));
    let s = scheme(QuantValue::Q4F, QuantStore::PackedU32(0), QuantLevel::Tensor);
    assert_eq!(scheme_to_mlx_params(&s, 32), (4, 32));
    assert_eq!(scheme_to_mlx_params(&s, u32::MAX as usize), (4, -1));
    let odd = QuantLevel::Block(BlockSize { extents: [16, 0, 1, 1, 1], rank: 2 });
    assert_eq!(scheme_to_mlx_params(&q8(odd), 7), (8, 16));
}

/// The values and scales that a quantized tensor was made from.
fn origin(q: &MlxQuantizedTensorPrimitive) -> (Vec<i8>, Vec<u32>) {
    match &**q.quantized.node() {
        Node::Kernel { op: Kernel::Quantize { .. }, srcs, .. } => match &*srcs[0] {
            Node::Scaled { values, scales, .. } => (values.clone(), scales.clone()),
            other => panic!("{:?}", other),
        },
        other => panic!("{:?}", other),
    }
}

fn bits_of(x: f32) -> u32 {
    x.to_bits()
}

#[test]
fn q_from_data_reads_bytes_and_scales() {
    let values: Vec<i8> = (0..64).map(|x| (x * 5 - 128) as i8).collect();
    let mut bytes: Vec<u8> = values.iter().map(|&x| x as u8).collect();
    bytes.extend(0.5f32.to_ne_bytes());
    bytes.extend(0.25f32.to_ne_bytes());
    let dtype = DType::QFloat(q8(block(32)));
    let q = Mlx::q_from_data(
        TensorData { bytes, shape: vec![2, 32], dtype },
        &MlxDevice::Gpu,
    );
    let (v, s) = origin(&q);
    assert_eq!(v, values);
    assert_eq!(s[..32], [bits_of(0.5); 32]);
    assert_eq!(s[32..], [bits_of(0.25); 32]);
    assert_eq!((q.bits, q.group_size), (8, 32));
    assert_eq!(q.shape, vec![2, 32]);
    assert_eq!(q.scheme, q8(block(32)));
    assert_eq!(q.quantized.shape(), &vec![2, 8]);
    assert_eq!(q.scales.shape(), &vec![2, 1]);
    assert_eq!(q.biases.shape(), &vec![2, 1]);
    let env = Env::new();
    let floats = env.of(&Mlx::dequantize(q));
    for e in 0..64 {
        let expected = values[e] as f64 * if e < 32 { 0.5 } else { 0.25 };
        assert!((num(floats.data[e]) - expected).abs() < 0.3);
    }
}

#[test]
fn q_from_data_unpacks_four_bits() {
    let mut bytes = Vec::new();
    for _ in 0..8 {
        bytes.extend(0xFEDC_BA98u32.to_ne_bytes());
    }
    bytes.extend(2.0f32.to_ne_bytes());
    let s = scheme(QuantValue::Q4S, QuantStore::PackedU32(0), QuantLevel::Tensor);
    let q = Mlx::q_from_data(
        TensorData { bytes, shape: vec![2, 32], dtype: DType::QFloat(s) },
        &MlxDevice::Cpu,
    );
    let (v, scales) = origin(&q);
    assert_eq!(v, [-8, -7, -6, -5, -4, -3, -2, -1].repeat(8));
    assert_eq!(scales, vec![bits_of(2.0); 64]);
    assert_eq!((q.bits, q.group_size), (4, 64));
}

#[test]
fn q_from_data_of_packed_bytes() {
    let values: Vec<i8> = (0..32).collect();
    let mut bytes: Vec<u8> = values.iter().map(|&x| x as u8).collect();
    bytes.extend((-1.5f32).to_ne_bytes());
    let s = scheme(QuantValue::Q8F, QuantStore::PackedU32(0), block(32));
    let q = Mlx::q_from_data(
        TensorData { bytes, shape: vec![1, 32], dtype: DType::QFloat(s) },
        &MlxDevice::Cpu,
    );
    assert_eq!(origin(&q), (values, vec![bits_of(-1.5); 32]));
}

#[test]
fn q_from_values_spreads_the_scales() {
    let q = Mlx::q_from_values(vec![3; 96], vec![1, 2, 3, 4], vec![3, 32], q8(block(32)));
    let (_, s) = origin(&q);
    let expected: Vec<u32> = (0..96).map(|e| 1 + e / 32).collect();
    assert_eq!(s, expected);
}

#[test]
fn q_from_data_of_nothing() {
    let s = scheme(QuantValue::Q4S, QuantStore::PackedU32(0), block(32));
    for words in 0..2 {
        let q = Mlx::q_from_data(
            TensorData {
                bytes: vec![0; 4 * words],
                shape: vec![0, 64],
                dtype: DType::QFloat(s),
            },
            &MlxDevice::Cpu,
        );
        assert_eq!(origin(&q), (vec![], vec![]));
        assert_eq!((q.bits, q.group_size), (4, 32));
        assert_eq!(q.quantized.shape(), &vec![0, 8]);
        assert_eq!(q.scales.shape(), &vec![0, 2]);
    }
    let q = Mlx::q_from_values(vec![], vec![], vec![2, 0], q8(block(32)));
    assert_eq!(q.shape, vec![2, 0]);
    assert_eq!(q.quantized.shape(), &vec![2, 0]);
}

#[test]
fn equal_floats_quantize_alike() {
    let mut env = Env::new();
    let values: Vec<i8> = (0..64).map(|x| (x * 3 - 90) as i8).collect();
    let scales = vec![bits_of(0.5), bits_of(2.0)];
    let floats: Vec<f64> =
        values.iter().enumerate().map(|(e, &x)| x as f64 * [0.5, 2.0][e / 32]).collect();
    let a = Mlx::q_from_values(values, scales, vec![2, 32], q8(block(32)));
    let t = T { shape: vec![2, 32], data: floats.into_iter().map(Val::F).collect() };
    let b = quantized(&mut env, &t, q8(block(32)));
    assert_eq!((a.bits, a.group_size), (b.bits, b.group_size));
    assert_eq!(env.value(&a.quantized), env.value(&b.quantized));
    assert_eq!(env.value(&a.scales), env.value(&b.scales));
    assert_eq!(env.value(&a.biases), env.value(&b.biases));
}

fn quantized(env: &mut Env, t: &T, s: QuantScheme) -> MlxQuantizedTensorPrimitive {
    let x = env.tensor(t.clone());
    Mlx::quantize_dynamic(x, &s)
}

#[test]
fn quantize_and_dequantize() {
    let mut env = Env::new();
    let t = mixed(&[3, 64], 17);
    let scales = env.tensor(range(&[3, 2]));
    let x = env.tensor(t.clone());
    let q = Mlx::quantize(x, &q8(block(32)), QuantizationParametersPrimitive { scales });
    assert_eq!(q.shape, vec![3, 64]);
    assert_eq!(q.quantized.shape(), &vec![3, 16]);
    assert_eq!(q.scales.shape(), &vec![3, 2]);
    let r = env.of(&Mlx::dequantize(q));
    for (x, y) in r.nums().iter().zip(t.nums()) {
        assert!((x - y).abs() < 0.01);
    }
    let s = scheme(QuantValue::Q4F, QuantStore::PackedNative(0), block(64));
    let q = quantized(&mut env, &t, s);
    assert_eq!(q.quantized.shape(), &vec![3, 8]);
    let r = env.of(&Mlx::dequantize(q));
    for (x, y) in r.nums().iter().zip(t.nums()) {
        assert!((x - y).abs() < 0.14);
    }
}

fn float_of(t: TensorPrimitive) -> MlxTensorPrimitive {
    match t {
        TensorPrimitive::Float(t) => t,
        TensorPrimitive::QFloat(t) => panic!("{:?}", t),
    }
}

#[test]
fn q_matmul_of_every_combination() {
    let mut env = Env::new();
    let (a, b) = (mixed(&[2, 32], 18), mixed(&[32, 32], 19));
    let s = q8(block(32));
    let exact = matmul(&a, &b);
    for (lq, rq) in [(false, false), (false, true), (true, false), (true, true)] {
        let lhs = if lq {
            TensorPrimitive::QFloat(quantized(&mut env, &a, s))
        } else {
            TensorPrimitive::Float(env.tensor(a.clone()))
        };
        let rhs = if rq {
            TensorPrimitive::QFloat(quantized(&mut env, &b, s))
        } else {
            TensorPrimitive::Float(env.tensor(b.clone()))
        };
        let r = float_of(Mlx::q_matmul(lhs, rhs));
        let direct = match &**r.array.node() {
            Node::Unary { op: UnaryOp::CastFloat, src } => {
                matches!(&**src, Node::Kernel { op: Kernel::QuantizedMatmul { .. }, .. })
            }
            _ => false,
        };
        assert_eq!(direct, !lq && rq);
        let v = env.of(&r);
        for (x, y) in v.nums().iter().zip(exact.nums()) {
            assert!((x - y).abs() < 1.0);
        }
    }
}

#[test]
fn a_quantized_product_is_the_product_of_the_floats() {
    let mut env = Env::new();
    let (x, t) = (mixed(&[2, 3, 4], 45), mixed(&[2, 4, 32], 46));
    let q = quantized(&mut env, &t, q8(block(32)));
    let floats = env.of(&Mlx::dequantize(q));
    assert!(floats != t);
    let q = quantized(&mut env, &t, q8(block(32)));
    let lhs = TensorPrimitive::Float(env.tensor(x.clone()));
    let packed = float_of(Mlx::q_matmul(lhs, TensorPrimitive::QFloat(q)));
    assert!(matches!(&**packed.array.node(), Node::Unary { op: UnaryOp::CastFloat, .. }));
    close(&env.of(&packed), &matmul(&x, &floats));
}

#[test]
fn graphs_can_be_shared_between_threads() {
    fn shared<X: Send + Sync>(_: &X) {}
    let mut env = Env::new();
    let t = env.tensor(even(&[2, 32]));
    shared(&t);
    shared(&Mlx::quantize_dynamic(t, &q8(block(32))));
}

#[test]
fn q_device_is_the_gpu() {
    let mut env = Env::new();
    let q = quantized(&mut env, &range(&[1, 32]), q8(block(32)));
    assert_eq!(Mlx::q_device(&q), MlxDevice::Gpu);
    let node = q.quantized.node().clone();
    let r = Mlx::q_to_device(q, &MlxDevice::Cpu);
    assert_eq!(r.quantized.node(), &node);
}

/// The graph that is quantized anew.
fn source(q: &MlxQuantizedTensorPrimitive) -> Node {
    match &**q.quantized.node() {
        Node::Kernel { op: Kernel::Quantize { .. }, srcs, .. } => match &*srcs[0] {
            Node::Permute { src, axes } => Node::Permute { src: src.clone(), axes: axes.clone() },
            Node::Reshape { src, shape } => {
                Node::Reshape { src: src.clone(), shape: shape.clone() }
            }
            other => panic!("{:?}", other),
        },
        other => panic!("{:?}", other),
    }
}

#[test]
fn q_reshape_relabels_where_the_matrices_stay() {
    let mut env = Env::new();
    let t = mixed(&[2, 32], 20);
    let q = quantized(&mut env, &t, q8(block(32)));
    let node = q.quantized.node().clone();
    let again = quantized(&mut env, &t, q8(block(32)));
    let before = env.of(&Mlx::dequantize(again));
    let r = Mlx::q_reshape(q, vec![1, 2, 32]);
    assert_eq!(r.shape, vec![1, 2, 32]);
    assert_eq!(r.quantized.node(), &node);
    assert_eq!(env.of(&Mlx::dequantize(r)), before);
}

#[test]
fn q_reshape_requantizes_otherwise() {
    let mut env = Env::new();
    let t = mixed(&[2, 64], 21);
    let q = quantized(&mut env, &t, q8(block(32)));
    let r = Mlx::q_reshape(q, vec![4, 32]);
    assert_eq!(r.shape, vec![4, 32]);
    assert_eq!(r.scales.shape(), &vec![4, 1]);
    assert!(matches!(source(&r), Node::Reshape { .. }));
    let v = env.of(&Mlx::dequantize(r));
    assert_eq!(v.shape, vec![4, 32]);
    for (x, y) in v.nums().iter().zip(t.nums()) {
        assert!((x - y).abs() < 0.02);
    }
}

#[test]
fn q_swap_dims_relabels_leading_axes() {
    let mut env = Env::new();
    let t = mixed(&[2, 1, 1, 32], 22);
    let q = quantized(&mut env, &t, q8(block(32)));
    let node = q.quantized.node().clone();
    let r = Mlx::q_swap_dims(q, 0, 1);
    assert_eq!(r.shape, vec![1, 2, 1, 32]);
    assert_eq!(r.quantized.node(), &node);
}

#[test]
fn q_swap_dims_requantizes_matrices() {
    let mut env = Env::new();
    let t = mixed(&[32, 64], 23);
    let q = quantized(&mut env, &t, q8(block(32)));
    let r = Mlx::q_swap_dims(q, 0, 1);
    assert_eq!(r.shape, vec![64, 32]);
    assert!(matches!(source(&r), Node::Permute { .. }));
    let v = env.of(&Mlx::dequantize(r));
    for p in 0..v.data.len() {
        let i = unravel(&v.shape, p);
        assert!((num(v.data[p]) - num(t.at(&[i[1], i[0]]))).abs() < 0.02);
    }
}

/// Values that quantize without loss: the bounds and steps of the range between them.
fn even(shape: &[usize]) -> T {
    T::build(shape.to_vec(), |i| {
        let last = i[i.len() - 1];
        Val::F(match last % 32 {
            0 => 0.0,
            31 => 255.0,
            x => (x * 7 + i[0] * 3) as f64,
        })
    })
}

#[test]
fn q_moves_follow_the_floats() {
    let mut env = Env::new();
    let s = q8(block(32));
    let t = even(&[3, 32]);
    let floats_of = |env: &Env, q| env.of(&Mlx::dequantize(q));
    let q = quantized(&mut env, &t, s);
    assert_eq!(floats_of(&env, q), t);
    let q = quantized(&mut env, &t, s);
    let r = Mlx::q_flip(q, &[0]);
    assert_eq!(r.shape, vec![3, 32]);
    let v = floats_of(&env, r);
    assert_eq!(v, T::build(vec![3, 32], |i| t.at(&[2 - i[0], i[1]])));
    let q = quantized(&mut env, &t, s);
    let r = Mlx::q_flip(q, &[1]);
    let v = floats_of(&env, r);
    assert_eq!(v, T::build(vec![3, 32], |i| t.at(&[i[0], 31 - i[1]])));
    let q = quantized(&mut env, &t, s);
    let i = env.tensor(ints(&[2], &[2, 0]));
    let v = floats_of(&env, Mlx::q_select(q, 0, i));
    assert_eq!(v, T::build(vec![2, 32], |i| t.at(&[2 - 2 * i[0], i[1]])));
    let q = quantized(&mut env, &t, s);
    let v = floats_of(&env, Mlx::q_slice(q, &[Slice { start: 1, end: None, step: 1 }]));
    assert_eq!(v, T::build(vec![2, 32], |i| t.at(&[i[0] + 1, i[1]])));
    let q = quantized(&mut env, &even(&[2, 3, 32]), s);
    let r = Mlx::q_permute(q, &[1, 0, 2]);
    assert_eq!(r.shape, vec![3, 2, 32]);
    let v = floats_of(&env, r);
    let u = even(&[2, 3, 32]);
    assert_eq!(v, T::build(vec![3, 2, 32], |i| u.at(&[i[1], i[0], i[2]])));
}

#[test]
fn q_expand_relabels_where_only_ones_are_added() {
    let mut env = Env::new();
    let t = even(&[2, 32]);
    let q = quantized(&mut env, &t, q8(block(32)));
    let node = q.quantized.node().clone();
    let r = Mlx::q_expand(q, vec![1, 1, 2, 32]);
    assert_eq!(r.shape, vec![1, 1, 2, 32]);
    assert_eq!(r.quantized.node(), &node);
}

#[test]
fn added_ones_change_the_shape_alone() {
    let mut env = Env::new();
    let t = MlxTensor { array: env.array(range(&[2, 3])), device: MlxDevice::Cpu };
    let repeated = t.broadcast_to(&[1, 1, 2, 3]);
    let reshaped = t.reshape_to(&[1, 1, 2, 3]);
    assert_eq!(env.value(&repeated.array), env.value(&reshaped.array));
}

#[test]
fn q_expand_requantizes_otherwise() {
    let mut env = Env::new();
    let t = even(&[2, 32]);
    let q = quantized(&mut env, &t, q8(block(32)));
    let r = Mlx::q_expand(q, vec![3, 2, 32]);
    assert_eq!(r.shape, vec![3, 2, 32]);
    let v = env.of(&Mlx::dequantize(r));
    assert_eq!(v, T::build(vec![3, 2, 32], |i| t.at(&[i[1], i[2]])));
    let q = quantized(&mut env, &even(&[1, 32]), q8(block(32)));
    let r = Mlx::q_expand(q, vec![4, 32]);
    assert_eq!(r.quantized.shape(), &vec![4, 8]);
}
