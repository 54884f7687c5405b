//! Random sequences of scope and map operations, checked at every step
//! against a naive reference: one association list per scope, ancestors
//! consulted in order.

use scoped_map::{KeyHasher, MaskedHasher, ScopedMap, ScopedMapBase, U64Hasher};

struct Oracle {
    frames: Vec<Vec<(u64, u32)>>,
}

impl Oracle {
    fn new() -> Self {
        Oracle { frames: vec![Vec::new()] }
    }

    fn push_scope(&mut self) {
        self.frames.push(Vec::new());
    }

    fn pop_scope(&mut self) {
        self.frames.pop();
    }

    fn insert(&mut self, k: u64, v: u32) {
        let top = self.frames.last_mut().unwrap();
        for pair in top.iter_mut() {
            if pair.0 == k {
                pair.1 = v;
                return;
            }
        }
        top.push((k, v));
    }

    fn lookup_at(&self, depth: usize, k: u64) -> Option<u32> {
        for frame in self.frames[..=depth].iter().rev() {
            for pair in frame.iter() {
                if pair.0 == k {
                    return Some(pair.1);
                }
            }
        }
        None
    }
}

struct Lcg {
    state: u64,
}

impl Lcg {
    fn next(&mut self) -> u64 {
        self.state = self
            .state
            .wrapping_mul(6364136223846793005)
            .wrapping_add(1442695040888963407);
        self.state >> 16
    }
}

fn run_differential<S: KeyHasher<u64>>(mut base: ScopedMapBase<u64, u32, S>, steps: u32, seed: u64) {
    let mut rng = Lcg { state: seed };
    let mut oracle = Oracle::new();
    let mut handles: Vec<ScopedMap> = vec![base.make_map()];
    for _ in 0..steps {
        let r = rng.next();
        match r % 16 {
            0 => {
                if handles.len() < 24 {
                    let child = handles.last().unwrap().new_scope(&base);
                    handles.push(child);
                    oracle.push_scope();
                }
            },
            1 => {
                if handles.len() > 1 {
                    handles.pop();
                    oracle.pop_scope();
                }
            },
            2..=8 => {
                let k = rng.next() % 48;
                let v = (rng.next() % 1000) as u32;
                handles.last_mut().unwrap().insert(&mut base, k, v);
                oracle.insert(k, v);
            },
            _ => {},
        }
        // a lookup targeting a random ancestor depth, checked every step
        let depth = (rng.next() as usize) % handles.len();
        let k = rng.next() % 48;
        let got = handles[depth].lookup(&base, &k).copied();
        assert_eq!(got, oracle.lookup_at(depth, k));
    }
}

#[test]
fn differential_default_hasher() {
    run_differential(ScopedMapBase::new(), 3000, 42);
}

#[test]
fn differential_identity_hasher() {
    run_differential(ScopedMapBase::with_hasher(U64Hasher), 3000, 7);
}

#[test]
fn differential_colliding_hasher() {
    run_differential(ScopedMapBase::with_hasher(MaskedHasher { mask: 0x7 }), 2000, 99);
}

#[test]
fn differential_high_bits_hasher() {
    // only the topmost nibble of the hash varies: collisions at every level
    // until the final one
    run_differential(
        ScopedMapBase::with_hasher(MaskedHasher { mask: 0xF000_0000_0000_0000 }),
        1500,
        1234,
    );
}
