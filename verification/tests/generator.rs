use nbody::generator::first_words;
use rand::RngCore;
use rand::SeedableRng;
use rand::XorShiftRng;

#[test]
fn the_first_words_are_those_of_the_generator() {
    for seed in [0u64, 1, 2, 0xdead_beef, u64::MAX] {
        let ours = first_words(seed, 1000);
        let mut rng = XorShiftRng::seed_from_u64(seed);
        assert_eq!(ours.len(), 1000);
        for word in ours {
            assert_eq!(word, rng.next_u32());
        }
    }
}

fn expand_step(state: u64) -> u64 {
    state.wrapping_mul(6364136223846793005).wrapping_add(11634580027462260723)
}

fn expand_output(state: u64) -> u32 {
    ((((state >> 18) ^ state) >> 27) as u32).rotate_right((state >> 59) as u32)
}

#[test]
fn the_words_follow_the_stated_recurrence() {
    for seed in [0u64, 7, 0x0123_4567_89ab_cdef] {
        let mut state = seed;
        let mut w = [0u32; 4];
        for slot in w.iter_mut() {
            state = expand_step(state);
            *slot = expand_output(state);
        }
        for word in first_words(seed, 500) {
            let t = w[0] ^ (w[0] << 11);
            let fresh = w[3] ^ (w[3] >> 19) ^ (t ^ (t >> 8));
            w = [w[1], w[2], w[3], fresh];
            assert_eq!(word, fresh);
        }
    }
}

#[test]
fn no_words_when_none_are_asked_for() {
    assert!(first_words(0, 0).is_empty());
}
