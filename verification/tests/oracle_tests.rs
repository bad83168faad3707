//! The primary oracle test: on pseudo-random inputs and query boxes the
//! tree query must return, as a multiset, exactly the input labels that
//! lie in the box with elimination time strictly above the threshold.
//!
//! The generator is a fixed-seed linear congruential generator, so the
//! test is deterministic.

use rt_datastructure::primitives::bbox::BBox;
use rt_datastructure::primitives::label::Label;
use rt_datastructure::pst_3d::Pst3d;

struct Lcg {
    state: u64,
}

impl Lcg {
    fn new(seed: u64) -> Lcg {
        Lcg { state: seed }
    }

    fn next(&mut self) -> u64 {
        // Constants from Knuth's MMIX generator.
        self.state = self
            .state
            .wrapping_mul(6364136223846793005)
            .wrapping_add(1442695040888963407);
        self.state >> 16
    }

    fn in_range(&mut self, lo: i64, hi: i64) -> i64 {
        let span = (hi - lo + 1) as u64;
        lo + (self.next() % span) as i64
    }
}

fn brute_force_ids(labels: &[Label], bb: &BBox, min_t: i64) -> Vec<i64> {
    let mut ids: Vec<i64> = labels
        .iter()
        .filter(|l| {
            l.get_t() > min_t
                && l.get_x() >= bb.get_min_x()
                && l.get_x() <= bb.get_max_x()
                && l.get_y() >= bb.get_min_y()
                && l.get_y() <= bb.get_max_y()
        })
        .map(|l| l.get_osm_id())
        .collect();
    ids.sort();
    ids
}

#[test]
fn test_query_matches_brute_force() {
    let mut rng = Lcg::new(20240311);

    for round in 0..8i64 {
        let n: i64 = 20 * round + 5;
        let mut labels = Vec::new();
        for id in 0..n {
            // Small coordinate and time ranges force many equal
            // coordinates and equal times, the interesting cases for the
            // split and the heap selection.
            labels.push(Label::new(
                rng.in_range(-12, 12),
                rng.in_range(-12, 12),
                rng.in_range(-6, 10),
                id,
                1,
                1,
                format!("P{}", id),
            ));
        }
        let tree = Pst3d::new(labels.clone());

        for _ in 0..24 {
            let x1 = rng.in_range(-14, 14);
            let x2 = rng.in_range(-14, 14);
            let y1 = rng.in_range(-14, 14);
            let y2 = rng.in_range(-14, 14);
            let bb = BBox::new(x1.min(x2), y1.min(y2), x1.max(x2), y1.max(y2));
            let min_t = rng.in_range(-8, 12);

            let mut got: Vec<i64> = tree
                .get(&bb, min_t)
                .iter()
                .map(|l| l.get_osm_id())
                .collect();
            got.sort();

            let expected = brute_force_ids(&labels, &bb, min_t);
            assert_eq!(got, expected);
        }
    }
}
