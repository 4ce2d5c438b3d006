//! Which soundfont files a port load reads from disk. Each file is parsed
//! once, then shared by every port whose list names it: loading a port's
//! list reuses what is cached and reads the rest, then hands the list to the
//! port's 16 channels.
use vstd::prelude::*;

verus! {

/// The paths of the soundfont files loaded so far, in load order.
pub struct SoundfontCacheKeys {
    pub paths: Vec<String>,
}

impl View for SoundfontCacheKeys {
    type V = Seq<Seq<char>>;

    open spec fn view(&self) -> Seq<Seq<char>> {
        self.paths@.map_values(|p: String| p@)
    }
}

/// The paths of a port's list, as text.
pub open spec fn path_texts(paths: Seq<String>) -> Seq<Seq<char>> {
    paths.map_values(|p: String| p@)
}

/// The next step of loading a port's soundfont list.
#[derive(Debug)]
pub enum PortLoadAction {
    /// Read list entry `i` from disk (it is not cached yet).
    LoadFromDisk(usize),
    /// Take list entry `i` from the cache.
    Reuse(usize),
    /// The whole list is at hand: give it to these channels.
    SendToChannels(Vec<u32>),
}

/// The channels of port `port`: `port * 16` to `port * 16 + 15`.
pub open spec fn port_channel_seq(port: int) -> Seq<u32> {
    Seq::new(16, |j: int| (port * 16 + j) as u32)
}

/// The largest number of ports whose channel numbers fit a `u32`.
pub const MAX_PORTS: usize = 0x1000_0000;

impl SoundfontCacheKeys {
    /// An empty cache.
    pub fn new() -> (res: Self)
        ensures
            res@ == Seq::<Seq<char>>::empty(),
    {
        let res = SoundfontCacheKeys { paths: Vec::new() };
        assert(res@ =~= Seq::<Seq<char>>::empty());
        res
    }

    /// Whether a file with this path is cached.
    pub fn contains(&self, path: &String) -> (res: bool)
        ensures
            res == self@.contains(path@),
    {
        let mut k: usize = 0;
        while k < self.paths.len()
            invariant
                k <= self.paths@.len(),
                forall|j: int| 0 <= j < k ==> self@[j] != path@,
            decreases self.paths.len() - k,
        {
            if self.paths[k] == *path {
                assert(self@[k as int] == path@);
                return true;
            }
            k = k + 1;
        }
        false
    }
}

/// The next step of loading the list `paths` into port `port`, when entries
/// `0..done` are at hand: entry `done` from the cache where it is there, else
/// from disk; once every entry is at hand, the port's channels.
pub fn next_port_load_action(cache: &SoundfontCacheKeys, paths: &Vec<String>, done: usize, port: usize) -> (res: PortLoadAction)
    requires
        done <= paths@.len(),
        port < MAX_PORTS,
    ensures
        done < paths@.len() && cache@.contains(paths@[done as int]@) ==> res == PortLoadAction::Reuse(done),
        done < paths@.len() && !cache@.contains(paths@[done as int]@) ==> res == PortLoadAction::LoadFromDisk(done),
        done == paths@.len() ==> (res matches PortLoadAction::SendToChannels(chs) && chs@ == port_channel_seq(port as int)),
{
    if done < paths.len() {
        if cache.contains(&paths[done]) {
            PortLoadAction::Reuse(done)
        } else {
            PortLoadAction::LoadFromDisk(done)
        }
    } else {
        let base = port * 16;
        let mut chs: Vec<u32> = Vec::new();
        let mut j: usize = 0;
        while j < 16
            invariant
                j <= 16,
                base == port * 16,
                port < MAX_PORTS,
                chs@ == port_channel_seq(port as int).take(j as int),
            decreases 16 - j,
        {
            chs.push((base + j) as u32);
            j = j + 1;
            assert(chs@ =~= port_channel_seq(port as int).take(j as int));
        }
        assert(chs@ =~= port_channel_seq(port as int));
        PortLoadAction::SendToChannels(chs)
    }
}

/// Records that the file at `path` was loaded: the cache gains the path
/// unless it already holds it.
pub fn record_loaded(cache: &mut SoundfontCacheKeys, path: &String)
    ensures
        final(cache)@ == if old(cache)@.contains(path@) { old(cache)@ } else { old(cache)@.push(path@) },
{
    if !cache.contains(path) {
        let ghost before = cache@;
        cache.paths.push(path.clone());
        assert(cache@ =~= before.push(path@));
    }
}

/// The paths read from disk when a port loads `paths` with the cache holding
/// `keys`, every file recorded once it is loaded: each path not cached, the
/// first time it comes.
pub open spec fn disk_loads(keys: Seq<Seq<char>>, paths: Seq<Seq<char>>) -> Seq<Seq<char>>
    decreases paths.len(),
{
    if paths.len() == 0 {
        Seq::empty()
    } else if keys.contains(paths[0]) {
        disk_loads(keys, paths.drop_first())
    } else {
        seq![paths[0]] + disk_loads(keys.push(paths[0]), paths.drop_first())
    }
}

/// The cache after a port loads `paths` with the cache holding `keys`.
pub open spec fn keys_after(keys: Seq<Seq<char>>, paths: Seq<Seq<char>>) -> Seq<Seq<char>>
    decreases paths.len(),
{
    if paths.len() == 0 {
        keys
    } else if keys.contains(paths[0]) {
        keys_after(keys, paths.drop_first())
    } else {
        keys_after(keys.push(paths[0]), paths.drop_first())
    }
}

/// The paths read from disk over a run of port loads, one list per load.
pub open spec fn run_disk_loads(keys: Seq<Seq<char>>, loads: Seq<Seq<Seq<char>>>) -> Seq<Seq<char>>
    decreases loads.len(),
{
    if loads.len() == 0 {
        Seq::empty()
    } else {
        disk_loads(keys, loads[0]) + run_disk_loads(keys_after(keys, loads[0]), loads.drop_first())
    }
}

/// One step of a port load, as `next_port_load_action` and `record_loaded`
/// take it: entry `done` is read from disk exactly when it is not cached,
/// and then it is recorded; what is read from disk from entry `done` on is
/// that entry (if read) and then what the rest reads with the updated cache.
pub proof fn law_load_step(keys: Seq<Seq<char>>, paths: Seq<Seq<char>>, done: int)
    requires
        0 <= done < paths.len(),
    ensures
        disk_loads(keys, paths.skip(done)) == if keys.contains(paths[done]) {
            disk_loads(keys, paths.skip(done + 1))
        } else {
            seq![paths[done]] + disk_loads(keys.push(paths[done]), paths.skip(done + 1))
        },
        keys_after(keys, paths.skip(done)) == if keys.contains(paths[done]) {
            keys_after(keys, paths.skip(done + 1))
        } else {
            keys_after(keys.push(paths[done]), paths.skip(done + 1))
        },
{
    assert(paths.skip(done).drop_first() =~= paths.skip(done + 1));
    assert(paths.skip(done)[0] == paths[done]);
}

proof fn lemma_disk_loads(keys: Seq<Seq<char>>, paths: Seq<Seq<char>>)
    ensures
        disk_loads(keys, paths).no_duplicates(),
        forall|x: Seq<char>| #[trigger] disk_loads(keys, paths).contains(x) ==> !keys.contains(x) && keys_after(keys, paths).contains(x),
        forall|x: Seq<char>| keys.contains(x) ==> #[trigger] keys_after(keys, paths).contains(x),
    decreases paths.len(),
{
    if paths.len() > 0 {
        let rest = paths.drop_first();
        let p = paths[0];
        if keys.contains(p) {
            lemma_disk_loads(keys, rest);
            assert(keys_after(keys, paths) == keys_after(keys, rest));
            assert(disk_loads(keys, paths) == disk_loads(keys, rest));
        } else {
            let k2 = keys.push(p);
            lemma_disk_loads(k2, rest);
            let tail = disk_loads(k2, rest);
            let all = seq![p] + tail;
            assert forall|x: Seq<char>| keys.contains(x) implies k2.contains(x) by {
                let j = choose|j: int| 0 <= j < keys.len() && keys[j] == x;
                assert(k2[j] == x);
            }
            assert(k2[keys.len() as int] == p);
            assert(k2.contains(p));
            assert(keys_after(keys, paths) == keys_after(k2, rest));
            assert forall|x: Seq<char>| keys.contains(x) implies #[trigger] keys_after(keys, paths).contains(x) by {
                assert(k2.contains(x));
            }
            assert forall|x: Seq<char>| #[trigger] all.contains(x) implies !keys.contains(x) && keys_after(keys, paths).contains(x) by {
                let j = choose|j: int| 0 <= j < all.len() && all[j] == x;
                if j > 0 {
                    assert(tail[j - 1] == x);
                    assert(tail.contains(x));
                    if keys.contains(x) {
                        assert(k2.contains(x));
                    }
                } else {
                    assert(x == p);
                    assert(k2.contains(x));
                }
            }
            assert forall|a: int, b: int| 0 <= a < all.len() && 0 <= b < all.len() && a != b implies all[a] != all[b] by {
                if a > 0 && b > 0 {
                    assert(all[a] == tail[a - 1] && all[b] == tail[b - 1]);
                } else if a == 0 {
                    assert(all[b] == tail[b - 1]);
                    assert(tail.contains(all[b]));
                } else {
                    assert(all[a] == tail[a - 1]);
                    assert(tail.contains(all[a]));
                }
            }
            assert(disk_loads(keys, paths) == all);
        }
    }
}

/// Over any run of port loads, every soundfont file is read from disk at most
/// once, and never when it was cached before the run: a file loaded for one
/// port is shared by every later port that names it.
pub proof fn law_each_file_loaded_once(keys: Seq<Seq<char>>, loads: Seq<Seq<Seq<char>>>)
    ensures
        run_disk_loads(keys, loads).no_duplicates(),
        forall|x: Seq<char>| #[trigger] run_disk_loads(keys, loads).contains(x) ==> !keys.contains(x),
    decreases loads.len(),
{
    if loads.len() > 0 {
        let first = disk_loads(keys, loads[0]);
        let k2 = keys_after(keys, loads[0]);
        lemma_disk_loads(keys, loads[0]);
        law_each_file_loaded_once(k2, loads.drop_first());
        let rest = run_disk_loads(k2, loads.drop_first());
        let all = first + rest;
        assert(run_disk_loads(keys, loads) == all);
        assert forall|x: Seq<char>| #[trigger] all.contains(x) implies !keys.contains(x) by {
            let j = choose|j: int| 0 <= j < all.len() && all[j] == x;
            if j < first.len() {
                assert(first[j] == x);
                assert(first.contains(x));
            } else {
                assert(rest[j - first.len()] == x);
                assert(rest.contains(x));
                if keys.contains(x) {
                    assert(k2.contains(x));
                }
            }
        }
        assert forall|a: int, b: int| 0 <= a < all.len() && 0 <= b < all.len() && a != b implies all[a] != all[b] by {
            if a < first.len() && b < first.len() {
                assert(all[a] == first[a] && all[b] == first[b]);
            } else if a >= first.len() && b >= first.len() {
                assert(all[a] == rest[a - first.len()] && all[b] == rest[b - first.len()]);
            } else if a < first.len() {
                assert(all[a] == first[a] && first.contains(all[a]));
                assert(all[b] == rest[b - first.len()] && rest.contains(all[b]));
            } else {
                assert(all[b] == first[b] && first.contains(all[b]));
                assert(all[a] == rest[a - first.len()] && rest.contains(all[a]));
            }
        }
    }
}

} // verus!
