use adsb_sim::bloom_filter::BloomFilter;
use adsb_sim::bloom_filter::ScalableBloomFilter;
use rand::distr::Alphanumeric;
use rand::distr::SampleString;

fn gen_input(n: usize) -> Vec<String> {
    let mut rng = rand::rng();
    (0..n).map(|_| Alphanumeric.sample_string(&mut rng, 8)).collect()
}

#[test]
fn test_bf_positive() {
    let mut bf = BloomFilter::new(1024, 4, 1, 256, 0);
    let input = gen_input(64);
    input.iter().for_each(|i| bf.insert(i));

    for i in input {
        assert_eq!(true, bf.contains(&i), "input {i}");
    }
}

#[test]
fn test_bf_negative() {
    let mut bf = BloomFilter::new(4096, 16, 1, 256, 0);
    let input = gen_input(64);
    input.iter().for_each(|i| bf.insert(i));

    let neg_input = gen_input(16);
    for i in neg_input {
        assert_eq!(false, bf.contains(&i), "input {i}");
    }
}

#[test]
fn test_sbf_positive() {
    let mut bf = ScalableBloomFilter::new(0);
    let input = gen_input(2048);
    input.iter().for_each(|i| bf.insert(i, 0));

    for i in input {
        assert!(bf.contains(&i), "input {i}");
    }
    assert!(bf.layer_count() > 1)
}

#[test]
fn test_sbf_negative() {
    let mut bf = ScalableBloomFilter::new(0);
    let input = gen_input(2048);
    input.iter().for_each(|i| bf.insert(i, 0));

    let neg_input = gen_input(1);
    for i in neg_input {
        assert_eq!(false, bf.contains(&i), "input {i}");
    }
    assert!(bf.layer_count() > 1)
}

#[test]
fn partitioning() {
    let input = gen_input(256);
    for i in input {
        let mut bf = BloomFilter::new(128, 4, 1, 32, 0);
        bf.insert(&i);
        assert!(bf.contains(&i), "input {i}");
        assert_eq!(4, bf.count_set_bits())
    }
}

#[test]
fn sbf_aging_keeps_one_fresh_layer() {
    let mut bf = ScalableBloomFilter::new(0);
    for i in 0..5000u32 {
        let id = format!("craft-{}", i);
        bf.insert(&id, 0);
    }
    assert!(bf.layer_count() > 1);
    bf.prune(0, 0);
    assert_eq!(1, bf.layer_count());
    assert_eq!(20480, bf.total_bits());
    assert_eq!(0, bf.set_bits());
}

#[test]
fn sbf_prune_idempotent() {
    let mut bf = ScalableBloomFilter::new(0);
    for i in 0..300u32 {
        let id = format!("craft-{}", i);
        bf.insert(&id, (i as u64) * 10);
    }
    bf.prune(1500, 3000);
    let layers = bf.layer_count();
    let bits = bf.total_bits();
    let ones = bf.set_bits();
    bf.prune(1500, 3000);
    assert_eq!(layers, bf.layer_count());
    assert_eq!(bits, bf.total_bits());
    assert_eq!(ones, bf.set_bits());
}

#[test]
fn sbf_fpr_single_fresh_layer() {
    let bf = ScalableBloomFilter::new(0);
    // one layer with ten bands: 10^6 - (10^6 - 10^6 / 2^10) = 976 ppm
    assert_eq!(976, bf.fpr_ppm());
}
