use bytes::Bytes;
use stream_assembler::Assembler;

struct Dice(u64);

impl Dice {
    fn roll(&mut self, sides: usize) -> usize {
        self.0 = self
            .0
            .wrapping_mul(6364136223846793005)
            .wrapping_add(1442695040888963407);
        ((self.0 >> 33) as usize) % sides
    }
}

fn stream(len: usize) -> Bytes {
    Bytes::from((0..len).map(|i| (i * 7 % 251) as u8).collect::<Vec<u8>>())
}

fn offer(x: &mut Assembler, stream: &Bytes, dice: &mut Dice) {
    let from = dice.roll(stream.len());
    let len = 1 + dice.roll(64.min(stream.len() - from));
    let slack = if dice.roll(3) == 0 { 0 } else { dice.roll(3000) };
    assert!(x.try_insert(from as u64, stream.slice(from..from + len), len + slack));
}

fn within_bound(x: &Assembler) -> bool {
    let over = (x.allocated() - x.buffered()) as u128;
    over <= 4096 || 2 * over <= 3 * x.buffered() as u128
}

#[test]
fn random_fragments_read_in_order() {
    for seed in 1..20 {
        let mut dice = Dice(seed);
        let stream = stream(1500);
        let mut x = Assembler::new();
        let mut out = Vec::new();
        for _ in 0..600 {
            offer(&mut x, &stream, &mut dice);
            assert!(within_bound(&x));
            assert!(x.allocated() >= x.buffered());
            if dice.roll(4) == 0 {
                let at = x.bytes_read();
                let max = dice.roll(40);
                if let Some(chunk) = x.read(max, true) {
                    assert_eq!(chunk.offset, at);
                    assert!(chunk.bytes.len() <= max);
                    assert_eq!(x.bytes_read(), at + chunk.bytes.len() as u64);
                    out.extend_from_slice(&chunk.bytes);
                } else {
                    assert_eq!(x.bytes_read(), at);
                }
                assert_eq!(&out[..], &stream[..out.len()]);
            }
            if dice.roll(50) == 0 && x.len() > 0 {
                x.defragment();
                assert_eq!(x.allocated(), x.buffered());
            }
        }
        assert!(x.try_insert(0, stream.clone(), stream.len()));
        while let Some(chunk) = x.read(100, true) {
            assert!(!chunk.bytes.is_empty());
            out.extend_from_slice(&chunk.bytes);
        }
        assert_eq!(&out[..], &stream[..]);
        assert_eq!((x.len(), x.buffered(), x.allocated()), (0, 0, 0));
    }
}

#[test]
fn random_fragments_read_unordered_come_once() {
    for seed in 1..20 {
        let mut dice = Dice(seed * 977);
        let stream = stream(1200);
        let mut seen = vec![false; stream.len()];
        let mut x = Assembler::new();
        x.ensure_ordering(false).unwrap();
        let mut take = |x: &mut Assembler, max: usize| -> bool {
            match x.read(max, false) {
                None => false,
                Some(chunk) => {
                    let at = chunk.offset as usize;
                    assert!(chunk.bytes.len() <= max);
                    assert_eq!(&chunk.bytes[..], &stream[at..at + chunk.bytes.len()]);
                    for mark in &mut seen[at..at + chunk.bytes.len()] {
                        assert!(!*mark);
                        *mark = true;
                    }
                    true
                }
            }
        };
        for _ in 0..400 {
            offer(&mut x, &stream, &mut dice);
            assert!(within_bound(&x));
            assert!(x.allocated() >= x.buffered());
            if dice.roll(3) == 0 {
                take(&mut x, 1 + dice.roll(40));
            }
            if dice.roll(40) == 0 && x.len() > 0 {
                x.defragment();
                assert_eq!(x.allocated(), x.buffered());
            }
        }
        assert!(x.try_insert(0, stream.clone(), stream.len()));
        while take(&mut x, 1 + dice.roll(90)) {}
        assert_eq!(x.bytes_read(), 0);
        assert_eq!((x.len(), x.buffered(), x.allocated()), (0, 0, 0));
        drop(take);
        assert!(seen.iter().all(|mark| *mark));
    }
}

#[test]
fn random_fragments_do_not_change_output_when_defragmented() {
    for seed in 1..10 {
        let mut dice = Dice(seed * 31);
        let stream = stream(800);
        let mut plain = Assembler::new();
        let mut compacted = Assembler::new();
        for _ in 0..200 {
            let from = dice.roll(stream.len());
            let len = 1 + dice.roll(32.min(stream.len() - from));
            let slack = dice.roll(5);
            for x in [&mut plain, &mut compacted] {
                x.insert(from as u64, stream.slice(from..from + len), len + slack);
            }
            if dice.roll(10) == 0 && compacted.len() > 0 {
                compacted.defragment();
            }
            if dice.roll(5) == 0 {
                let mut a = Vec::new();
                let mut b = Vec::new();
                while let Some(chunk) = plain.read(usize::MAX, true) {
                    a.extend_from_slice(&chunk.bytes);
                }
                while let Some(chunk) = compacted.read(usize::MAX, true) {
                    b.extend_from_slice(&chunk.bytes);
                }
                assert_eq!(a, b);
                assert_eq!(plain.bytes_read(), compacted.bytes_read());
            }
        }
    }
}
