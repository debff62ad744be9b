use amicola::outline::cut;
use amicola::{Hit, OrderedSet, Point, RawHit, Scalar, Segment};
use float_ord::FloatOrd;
use std::cmp::Ordering;
use std::collections::hash_map::DefaultHasher;
use std::collections::BTreeSet;
use std::hash::{Hash, Hasher};

fn number(v: f32) -> Scalar {
    Scalar { bits: v.to_bits() }
}

fn point(x: f32, y: f32) -> Point {
    Point { x: number(x), y: number(y) }
}

fn raw(t: f32) -> RawHit {
    RawHit { position: point(t, -t), t: number(t) }
}

fn hit(x: isize, y: isize, segment_id: usize) -> Hit {
    Hit { x, y, y_range: number(0.0)..number(1.0), segment_id, uncovered: false }
}

fn next(state: &mut u64) -> u64 {
    *state ^= *state << 13;
    *state ^= *state >> 7;
    *state ^= *state << 17;
    *state
}

#[derive(Clone, Copy)]
struct Parameter(f32);

impl PartialEq for Parameter {
    fn eq(&self, other: &Parameter) -> bool {
        self.cmp(other) == Ordering::Equal
    }
}

impl Eq for Parameter {}

impl PartialOrd for Parameter {
    fn partial_cmp(&self, other: &Parameter) -> Option<Ordering> {
        Some(self.cmp(other))
    }
}

impl Ord for Parameter {
    fn cmp(&self, other: &Parameter) -> Ordering {
        if (self.0 - other.0).abs() <= f32::EPSILON {
            Ordering::Equal
        } else {
            FloatOrd(self.0).cmp(&FloatOrd(other.0))
        }
    }
}

fn parameters(state: &mut u64, n: usize) -> Vec<f32> {
    (0..n)
        .map(|_| {
            let base = (next(state) % 17) as f32 / 16.0;
            let off = (next(state) % 9) as f32 - 4.0;
            base + off * 0.4 * f32::EPSILON
        })
        .collect()
}

#[test]
fn raw_hits_compare_by_rounded_distance_and_total_order() {
    let mut state = 77u64;
    let mut values = parameters(&mut state, 200);
    values.extend([f32::NAN, -f32::NAN, f32::INFINITY, f32::NEG_INFINITY, -0.0, 0.0, 1.0e-30]);
    for _ in 0..300 {
        values.push(f32::from_bits(next(&mut state) as u32));
    }
    for a in &values {
        for b in &values {
            let want = Parameter(*a).cmp(&Parameter(*b));
            assert_eq!(raw(*a).cmp(&raw(*b)), want, "{:?} {:?}", a, b);
            assert_eq!(raw(*a).partial_cmp(&raw(*b)), Some(want));
        }
    }
}

#[test]
fn a_difference_that_rounds_to_epsilon_is_near() {
    // The exact difference is a little more than 2^-23.
    let a = f32::EPSILON + f32::EPSILON * f32::EPSILON;
    let b = f32::EPSILON * f32::EPSILON * 0.75;
    assert_eq!(raw(a).cmp(&raw(b)), Ordering::Equal);
    assert_eq!(raw(2.5 * f32::EPSILON).cmp(&raw(b)), Ordering::Greater);
    assert_eq!(raw(0.0).cmp(&raw(-0.0)), Ordering::Equal);
    assert!(raw(0.25) < raw(0.5));
    assert!(raw(0.25) == raw(0.25));
    assert!(!(raw(0.25) == raw(0.25 + f32::EPSILON)));
}

#[test]
fn cuts_are_the_set_of_ends_and_crossings() {
    let mut state = 4242u64;
    for round in 0..400 {
        let values = parameters(&mut state, round % 40);
        let mut set = BTreeSet::new();
        set.insert(Parameter(0.0));
        set.insert(Parameter(1.0));
        for v in &values {
            set.insert(Parameter(*v));
        }
        let want: Vec<u32> = set.iter().map(|p| p.0.to_bits()).collect();
        let mut crossings: Vec<Option<RawHit>> = Vec::new();
        for v in &values {
            crossings.push(Some(raw(*v)));
            crossings.push(None);
        }
        let segment = Segment { from: point(0.0, 0.0), to: point(1.0, -1.0) };
        let got: Vec<u32> = cut(segment, &crossings).into_vec().iter().map(|h| h.t.bits).collect();
        assert_eq!(got, want);
    }
}

#[test]
fn cuts_begin_and_end_with_the_segment() {
    let segment = Segment { from: point(3.0, 4.0), to: point(5.0, 6.0) };
    let crossings = vec![Some(raw(1.0)), Some(raw(0.5)), None, Some(raw(0.0))];
    let cuts = cut(segment, &crossings);
    let cuts = cuts.as_vec();
    assert_eq!(cuts.len(), 3);
    assert!(cuts[0].position == segment.from);
    assert!(cuts[1].position == point(0.5, -0.5));
    assert!(cuts[2].position == segment.to);
}

#[test]
fn hits_are_ordered_by_row_and_column() {
    assert_eq!(hit(5, 1, 0).cmp(&hit(2, 2, 0)), Ordering::Less);
    assert_eq!(hit(5, 2, 0).cmp(&hit(2, 2, 0)), Ordering::Greater);
    assert_eq!(hit(2, 2, 0).cmp(&hit(2, 2, 9)), Ordering::Equal);
    assert_eq!(hit(-3, -1, 0).partial_cmp(&hit(3, -1, 0)), Some(Ordering::Less));
    assert!(hit(2, 2, 0) == hit(2, 2, 9));
    assert!(hit(2, 2, 0) != hit(2, 3, 0));
    assert!(hit(1, 2, 0) < hit(0, 3, 0));
    assert_eq!(hit(1, 2, 7).clone().segment_id, 7);
}

#[test]
fn equal_hits_hash_alike() {
    let of = |h: &Hit| {
        let mut hasher = DefaultHasher::new();
        h.hash(&mut hasher);
        hasher.finish()
    };
    assert_eq!(of(&hit(3, 4, 0)), of(&hit(3, 4, 1)));
    assert_ne!(of(&hit(3, 4, 0)), of(&hit(4, 3, 0)));
}

/// Keeps what it is fed.
struct Recorder(Vec<isize>);

impl Hasher for Recorder {
    fn finish(&self) -> u64 {
        0
    }

    fn write(&mut self, _: &[u8]) {
        panic!("only numbers are fed");
    }

    fn write_isize(&mut self, x: isize) {
        self.0.push(x);
    }
}

#[test]
fn the_column_and_the_row_are_hashed() {
    let mut recorder = Recorder(vec![]);
    hit(3, -4, 7).hash(&mut recorder);
    assert_eq!(recorder.0, vec![3, -4]);
}

#[test]
fn the_first_of_equal_items_stays() {
    let mut set = OrderedSet::new();
    assert!(set.insert(hit(4, 1, 0)));
    assert!(set.insert(hit(2, 1, 1)));
    assert!(set.insert(hit(9, 0, 2)));
    assert!(!set.insert(hit(4, 1, 3)));
    assert!(!set.insert(hit(4, 1, 3)));
    let items = set.into_vec();
    let ids: Vec<usize> = items.iter().map(|h| h.segment_id).collect();
    assert_eq!(ids, vec![2, 1, 0]);
}
