use automata::state::{Transaction, World};

const ADMIN: [u64; 4] = [11, 22, 33, 44];
const KEYS: [[u64; 4]; 3] = [[1, 2, 3, 4], [5, 6, 7, 8], ADMIN];
const ABORTED: u64 = 0xffff;

struct Lcg(u64);

impl Lcg {
    fn next(&mut self) -> u64 {
        self.0 = self.0.wrapping_mul(6364136223846793005).wrapping_add(1442695040888963407);
        self.0 >> 16
    }

    fn below(&mut self, n: u64) -> u64 {
        self.next() % n
    }
}

fn digest(words: &[u64]) -> u64 {
    let mut hash: u64 = 0xcbf29ce484222325;
    for word in words {
        for byte in word.to_le_bytes() {
            hash ^= byte as u64;
            hash = hash.wrapping_mul(0x100000001b3);
        }
    }
    hash
}

fn state_words(world: &World) -> Vec<u64> {
    let mut words = vec![world.state.queue.counter, world.players.players.len() as u64];
    for player in &world.players.players {
        words.extend([player.player_id[0], player.player_id[1], player.nonce]);
        player.data.to_data(&mut words);
    }
    words.push(world.state.queue.list.len() as u64);
    for event in &world.state.queue.list {
        words.extend([event.owner[0], event.owner[1], event.object_index as u64, event.delta]);
    }
    words.push(world.settlement.0.len() as u64);
    for payload in &world.settlement.0 {
        words.extend(payload);
    }
    words
}

/// Runs `steps` pseudo-random rounds of transactions of two players and the
/// administrator, with bursts of ticks between them, and returns the world
/// with the status of every transaction.
fn run(seed: u64, steps: usize) -> (World, Vec<u64>) {
    let mut world = World::new(ADMIN);
    let mut lcg = Lcg(seed);
    let mut statuses = Vec::new();
    for _ in 0..steps {
        let who = KEYS[lcg.below(3) as usize];
        let mut pid = [who[1], who[2]];
        let kind = lcg.below(20);
        let (nonce, objects, cards) = match world.players.position(&pid) {
            Some(i) => {
                let player = &world.players.players[i];
                (player.nonce, player.data.objects.len() as u64, player.data.cards.len() as u64)
            }
            None => (0, 0, 4),
        };
        let r1 = lcg.next();
        let r2 = lcg.next();
        let r3 = lcg.next();
        let rand = [r3, r1.wrapping_mul(0x9e3779b97f4a7c15).wrapping_add(r2), r1, r2];
        let mut program = [0u8; 8];
        for (k, card) in program.iter_mut().enumerate() {
            *card = (((r1 >> (6 * k)) & 0x3f) % cards) as u8;
        }
        let program = u64::from_le_bytes(program);
        let mut pkey = who;
        let mut burst = 1;
        let params = if kind < 9 {
            pkey = ADMIN;
            pid = [ADMIN[1], ADMIN[2]];
            burst = 1 + r2 % 25;
            [0, 0, 0, 0]
        } else if kind == 9 {
            [1, 0, 0, 0]
        } else if kind <= 11 {
            [2 | (objects << 8) | (nonce << 16), program, 0, 0]
        } else if kind <= 13 {
            [3 | ((r2 % (objects + 1)) << 8) | (nonce << 16), program, 0, 0]
        } else if kind == 14 {
            [4 | ((r2 % (objects + 1)) << 8) | (nonce << 16), r1 % 5, 0, 0]
        } else if kind == 15 {
            [5 | (nonce << 16), 0, 0, 0]
        } else if kind == 16 {
            [6 | (nonce << 16), (r1 % 7) | (r2 << 32), r2, r3]
        } else if kind == 17 {
            let target = KEYS[(r1 % 3) as usize];
            [7 | (nonce << 16), target[1], target[2], r2 % 1000]
        } else {
            [8 | (nonce << 16), r1 % 9, 0, 0]
        };
        for _ in 0..burst {
            assert!(world.well_formed());
            match Transaction::decode(&params).process(&pkey, &pid, &rand, &mut world) {
                Ok(status) => statuses.push(status[0]),
                Err(_) => statuses.push(ABORTED),
            }
        }
    }
    (world, statuses)
}

#[test]
fn four_hundred_rounds() {
    let (world, statuses) = run(1, 400);
    assert_eq!(world.state.queue.counter, 2442);
    assert_eq!(world.state.queue.list.len(), 4);
    assert_eq!(statuses.iter().filter(|s| **s == ABORTED).count(), 30);
    assert_eq!(statuses.iter().filter(|s| **s == 0).count(), 2524);
    let by_code: Vec<usize> =
        (1..6).map(|code| statuses.iter().filter(|s| **s == code).count()).collect();
    assert_eq!(by_code, vec![16, 5, 45, 5, 27]);
    let admin = &world.players.players[0];
    assert_eq!(admin.player_id, [22, 33]);
    assert_eq!(admin.nonce, 31);
    assert_eq!(admin.data.energy, 715);
    assert_eq!(admin.data.current_cost, 8);
    assert_eq!(admin.data.local.0, vec![4, 0, 0, 0, 44, 0, 0, 507]);
    assert_eq!(digest(&statuses), 0x99c81a11c2496355);
    assert_eq!(digest(&state_words(&world)), 0xd45b127d6a3287ef);
}

#[test]
fn fifteen_hundred_rounds() {
    let (world, statuses) = run(2, 1500);
    assert_eq!(world.state.queue.counter, 8251);
    assert!(world.state.queue.list.is_empty());
    let second = &world.players.players[1];
    assert_eq!(second.player_id, [22, 33]);
    assert_eq!(second.data.local.0, vec![0, 1, 4, 0, 10, 0, 10, 101]);
    assert_eq!(second.data.objects.len(), 13);
    assert_eq!(digest(&statuses), 0x43755d0633074dea);
    assert_eq!(digest(&state_words(&world)), 0xe4173102ce236a2f);
}

#[test]
fn three_thousand_rounds() {
    let (world, statuses) = run(12345, 3000);
    assert_eq!(world.state.queue.counter, 16791);
    assert_eq!(world.state.queue.list.len(), 1);
    assert_eq!(statuses.iter().filter(|s| **s == ABORTED).count(), 132);
    assert_eq!(digest(&statuses), 0x8aba06e148ee398b);
    assert_eq!(digest(&state_words(&world)), 0xe0f89d98bd79ce43);
}
