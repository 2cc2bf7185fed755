use foaks::field::FieldElement;
use foaks::linear_code::{
    generate_random_expander, CodeRates, LinearCodeEncodeContext, CN, DISTANCE_THRESHOLD, DN,
};

const ALPHA: f64 = 0.238;
const R: f64 = 1.72;

/// The sizes of the code for messages of up to `n` symbols.
fn rates_up_to(n: usize) -> CodeRates {
    let mut alpha = Vec::new();
    let mut stretch = Vec::new();
    for m in 0..=n {
        alpha.push((ALPHA * (m as f64)) as usize);
        stretch.push(((m as f64) * (R - 1.0)) as usize);
    }
    CodeRates { alpha, stretch }
}

fn message(n: usize, seed: u64) -> Vec<FieldElement> {
    (0..n as u64)
        .map(|i| FieldElement::new(i * 7 + seed, i * i + 3 * seed))
        .collect()
}

#[test]
fn test_expander_init() {
    const N: usize = 16384;
    let rates = rates_up_to(N / 128);
    let mut ctx = LinearCodeEncodeContext::init();
    assert_eq!(220, ctx.expander_init(N / 128, None, &rates));
}

#[test]
fn expanders_have_the_planned_shapes() {
    let rates = rates_up_to(128);
    let mut ctx = LinearCodeEncodeContext::init();
    ctx.expander_init(128, None, &rates);
    assert_eq!((ctx.c[0].l, ctx.c[0].r, ctx.c[0].degree), (128, 30, CN));
    assert_eq!((ctx.d[0].l, ctx.d[0].r, ctx.d[0].degree), (51, 41, DN));
    assert_eq!((ctx.c[1].l, ctx.c[1].r, ctx.c[1].degree), (30, 7, CN));
    assert_eq!((ctx.d[1].l, ctx.d[1].r, ctx.d[1].degree), (7, 14, DN));
    assert_eq!(ctx.c[2].l, 0);
}

#[test]
fn short_messages_need_no_expanders() {
    let rates = rates_up_to(DISTANCE_THRESHOLD);
    let mut ctx = LinearCodeEncodeContext::init();
    assert_eq!(DISTANCE_THRESHOLD, ctx.expander_init(DISTANCE_THRESHOLD, None, &rates));
    assert_eq!(ctx.c[0].l, 0);
}

#[test]
fn random_expander_lists_each_edge_on_both_sides() {
    let g = generate_random_expander(40, 9, 5);
    assert_eq!((g.l, g.r, g.degree), (40, 9, 5));
    assert_eq!(g.neighbor.len(), 40);
    assert_eq!(g.r_neighbor.len(), 9);
    let mut expected: Vec<Vec<(usize, FieldElement)>> = vec![Vec::new(); 9];
    for i in 0..40 {
        assert_eq!(g.neighbor[i].len(), 5);
        for k in 0..5 {
            let t = g.neighbor[i][k];
            assert!(t < 9);
            expected[t].push((i, g.weight[i][k]));
        }
    }
    for t in 0..9 {
        let got: Vec<(usize, FieldElement)> = g.r_neighbor[t]
            .iter()
            .cloned()
            .zip(g.r_weight[t].iter().cloned())
            .collect();
        assert_eq!(got, expected[t]);
    }
}

#[test]
fn test_encode() {
    let rates = rates_up_to(128);
    let mut ctx = LinearCodeEncodeContext::init();
    let len = ctx.expander_init(128, None, &rates);
    let src = message(128, 1);
    let codeword = ctx.encode(&src, &rates);
    assert_eq!(220, len);
    assert_eq!(220, codeword.len());
    assert_eq!(&codeword[..128], &src[..]);
}

#[test]
fn encoding_is_linear() {
    let rates = rates_up_to(128);
    let mut ctx = LinearCodeEncodeContext::init();
    ctx.expander_init(128, None, &rates);
    let a = message(128, 5);
    let b = message(128, 11);
    let sum: Vec<FieldElement> = a.iter().zip(b.iter()).map(|(x, y)| *x + *y).collect();
    let ca = ctx.encode(&a, &rates);
    let cb = ctx.encode(&b, &rates);
    let cs = ctx.encode(&sum, &rates);
    let expected: Vec<FieldElement> = ca.iter().zip(cb.iter()).map(|(x, y)| *x + *y).collect();
    assert_eq!(cs, expected);
}

#[test]
fn zero_message_has_zero_codeword() {
    let rates = rates_up_to(100);
    let mut ctx = LinearCodeEncodeContext::init();
    let len = ctx.expander_init(100, None, &rates);
    let codeword = ctx.encode(&vec![FieldElement::zero(); 100], &rates);
    assert_eq!(codeword.len(), len);
    assert!(codeword.iter().all(|x| *x == FieldElement::zero()));
}

#[test]
fn redundancy_is_the_weighted_sum_of_the_edges() {
    let rates = rates_up_to(20);
    let mut ctx = LinearCodeEncodeContext::init();
    let len = ctx.expander_init(20, None, &rates);
    // 20 symbols: 4 go on (no further level), 14 in all beyond the message.
    assert_eq!(len, 20 + 4 + 10);
    let src = message(20, 2);
    let codeword = ctx.encode(&src, &rates);
    let mut image = vec![FieldElement::zero(); 4];
    for i in 0..20 {
        for k in 0..CN {
            let t = ctx.c[0].neighbor[i][k];
            image[t] = image[t] + ctx.c[0].weight[i][k] * src[i];
        }
    }
    assert_eq!(&codeword[20..24], &image[..]);
    let mut redundancy = vec![FieldElement::zero(); 10];
    for i in 0..4 {
        for k in 0..DN {
            let t = ctx.d[0].neighbor[i][k];
            redundancy[t] = redundancy[t] + image[i] * ctx.d[0].weight[i][k];
        }
    }
    assert_eq!(&codeword[24..], &redundancy[..]);
}
