//! Per-drive read/write throughput, from the cumulative sector counters of
//! `/proc/diskstats`.
use crate::table::{find_key, set_entry, table_map, text_map};
use crate::text::{
    decimal, lemma_parse_u64_decimal, all_digits, all_digits_chars, chars_of, concat3, copy_range, last_index_of, lemma_last_index_of,
    lemma_lex_total, lemma_lex_trans, lex_le, lex_le_chars, lines, parse_u64, parse_u64_chars,
    rfind_char, split_lines, split_words, starts_with, starts_with_chars, string_of, words,
};
use vstd::prelude::*;

verus! {

/// The kernel counts disk I/O in sectors of this many bytes.
pub const SECTOR_BYTES: u128 = 512;

/// At most this many drives are reported.
pub const MAX_DISKS: usize = 3;

// ───────────────────────────── physical drives ─────────────────────────────

/// A block device that is a physical drive: not a loop device, RAM disk,
/// device-mapper volume or zram device.
pub open spec fn is_physical(name: Seq<char>) -> bool {
    &&& !starts_with(name, "loop"@)
    &&& !starts_with(name, "ram"@)
    &&& !starts_with(name, "dm-"@)
    &&& !starts_with(name, "zram"@)
}

/// Whether the block device `name` is a physical drive.
pub fn is_physical_device(name: &str) -> (r: bool)
    ensures
        r == is_physical(name@),
        r == !(starts_with(name@, "loop"@) || starts_with(name@, "ram"@) || starts_with(
            name@,
            "dm-"@,
        ) || starts_with(name@, "zram"@)),
{
    let cs = chars_of(name);
    !(starts_with_chars(&cs, &chars_of("loop")) || starts_with_chars(&cs, &chars_of("ram"))
        || starts_with_chars(&cs, &chars_of("dm-")) || starts_with_chars(&cs, &chars_of("zram")))
}

/// Names in lexicographic order.
pub open spec fn sorted_names(s: Seq<Seq<char>>) -> bool {
    forall|i: int, j: int| 0 <= i < j < s.len() ==> lex_le(s[i], s[j])
}

/// The physical drives among the block devices `names`, sorted by name.
pub fn physical_devices(names: &Vec<String>) -> (r: Vec<String>)
    ensures
        sorted_names(names_view(r@)),
        names_view(r@).to_multiset() == names_view(names@).filter(|n: Seq<char>| is_physical(n)).to_multiset(),
{
    broadcast use vstd::seq_lib::group_to_multiset_ensures;

    let ghost pred = |n: Seq<char>| is_physical(n);
    let ghost all = names_view(names@);
    let mut r: Vec<String> = Vec::new();
    let mut i: usize = 0;
    assert(all.take(0) =~= Seq::<Seq<char>>::empty());
    proof {
        reveal_with_fuel(Seq::filter, 1);
    }
    assert(names_view(r@) =~= Seq::<Seq<char>>::empty());
    while i < names.len()
        invariant
            i <= names.len(),
            all == names_view(names@),
            pred == (|n: Seq<char>| is_physical(n)),
            sorted_names(names_view(r@)),
            names_view(r@).to_multiset() == all.take(i as int).filter(pred).to_multiset(),
        decreases names.len() - i,
    {
        let name = &names[i];
        assert(all.take(i + 1).drop_last() =~= all.take(i as int));
        assert(all.take(i + 1).last() == name@);
        let ghost f_old = all.take(i as int).filter(pred);
        proof {
            reveal_with_fuel(Seq::filter, 1);
            f_old.to_multiset_ensures();
        }
        if is_physical_device(name.as_str()) {
            assert(all.take(i + 1).filter(pred) == f_old.push(name@));
            let key = chars_of(name.as_str());
            let mut p: usize = 0;
            while p < r.len() && lex_le_chars(&chars_of(r[p].as_str()), &key)
                invariant
                    p <= r.len(),
                    key@ == name@,
                    forall|j: int| 0 <= j < p ==> lex_le(#[trigger] names_view(r@)[j], key@),
                decreases r.len() - p,
            {
                p += 1;
            }
            let ghost old_v = names_view(r@);
            proof {
                if p < r.len() {
                    lemma_lex_total(old_v[p as int], key@);
                }
            }
            r.insert(p, name.clone());
            let ghost new_v = names_view(r@);
            assert(new_v =~= old_v.insert(p as int, name@));
            assert(sorted_names(new_v)) by {
                assert forall|a: int, b: int| 0 <= a < b < new_v.len() implies lex_le(
                    new_v[a],
                    new_v[b],
                ) by {
                    if b == p {
                        assert(new_v[a] == old_v[a]);
                    } else if a == p {
                        assert(new_v[b] == old_v[b - 1]);
                        if b - 1 > p {
                            lemma_lex_trans(key@, old_v[p as int], old_v[b - 1]);
                        }
                    } else {
                        let a0 = if a < p { a } else { a - 1 };
                        let b0 = if b < p { b } else { b - 1 };
                        assert(new_v[a] == old_v[a0]);
                        assert(new_v[b] == old_v[b0]);
                    }
                }
            }
            assert(new_v.remove(p as int) =~= old_v);
            assert(new_v[p as int] == name@);
            assert(new_v.to_multiset() =~= old_v.to_multiset().insert(name@)) by {
                broadcast use vstd::multiset::group_multiset_axioms;

                new_v.to_multiset_ensures();
                assert(new_v.contains(name@));
                assert(new_v.remove(p as int).to_multiset() =~= new_v.to_multiset().remove(name@));
                assert(new_v.to_multiset().count(name@) > 0);
            }
        } else {
            assert(all.take(i + 1).filter(pred) == f_old);
        }
        i += 1;
    }
    assert(all.take(names.len() as int) =~= all);
    r
}

// ───────────────────────────── drive models ─────────────────────────────

/// The NVMe controller of namespace device `dev`: `"nvme0n1"` has controller
/// `"nvme0"` (the name up to its last `'n'`, which must be followed by one or
/// more digits). Other devices have none.
pub open spec fn nvme_controller(dev: Seq<char>) -> Option<Seq<char>> {
    let p = last_index_of(dev, 'n');
    if starts_with(dev, "nvme"@) && p >= 0 {
        let after = dev.subrange(p + 1, dev.len() as int);
        if after.len() > 0 && all_digits(after) {
            Some(dev.subrange(0, p))
        } else {
            None
        }
    } else {
        None
    }
}

/// The files that may name the model of drive `dev`, in the order to try
/// them: the NVMe controller's model file, if `dev` is an NVMe namespace,
/// then the SATA/SCSI device's model file.
pub open spec fn model_paths(dev: Seq<char>) -> Seq<Seq<char>> {
    let sata = "/sys/block/"@ + dev + "/device/model"@;
    match nvme_controller(dev) {
        Some(c) => seq!["/sys/class/nvme/"@ + c + "/model"@, sata],
        None => seq![sata],
    }
}

/// The NVMe controller of namespace device `dev`, if it is one.
pub fn nvme_controller_of(dev: &str) -> (r: Option<Vec<char>>)
    ensures
        r.deep_view() == nvme_controller(dev@),
{
    let cs = chars_of(dev);
    if !starts_with_chars(&cs, &chars_of("nvme")) {
        return None;
    }
    proof {
        lemma_last_index_of(cs@, 'n');
    }
    match rfind_char(&cs, 'n') {
        None => None,
        Some(p) => {
            let after = copy_range(&cs, p + 1, cs.len());
            if after.len() > 0 && all_digits_chars(&after) {
                let c = copy_range(&cs, 0, p);
                assert(c.deep_view() =~= c@);
                Some(c)
            } else {
                None
            }
        },
    }
}

/// The files that may name the model of drive `dev`, in the order to try
/// them; the first one that can be read gives the model, trimmed.
pub fn device_model_paths(dev: &String) -> (r: Vec<String>)
    ensures
        names_view(r@) == model_paths(dev@),
{
    let mut r: Vec<String> = Vec::new();
    match nvme_controller_of(dev.as_str()) {
        Some(c) => {
            assert(c.deep_view() =~= c@);
            r.push(concat3("/sys/class/nvme/", &c, "/model"));
        },
        None => {},
    }
    let d = chars_of(dev.as_str());
    r.push(concat3("/sys/block/", &d, "/device/model"));
    assert(names_view(r@) =~= model_paths(dev@));
    r
}

// ───────────────────────────── /proc/diskstats ─────────────────────────────

/// The `(device name, (sectors read, sectors written))` that one line of
/// `/proc/diskstats` gives: fields 3, 6 and 10 of a line of at least ten
/// whitespace-separated fields, both counters being unsigned numbers.
pub open spec fn diskstats_line(l: Seq<char>) -> Option<(Seq<char>, (u64, u64))> {
    let w = words(l);
    if w.len() >= 10 && parse_u64(w[5]) is Some && parse_u64(w[9]) is Some {
        Some((w[2], (parse_u64(w[5])->0, parse_u64(w[9])->0)))
    } else {
        None
    }
}

/// The counters of every device named in `ls`, a later line for a device
/// replacing an earlier one.
pub open spec fn diskstats_map(ls: Seq<Seq<char>>) -> Map<Seq<char>, (u64, u64)>
    decreases ls.len(),
{
    if ls.len() == 0 {
        Map::empty()
    } else {
        let m = diskstats_map(ls.drop_last());
        match diskstats_line(ls.last()) {
            Some((name, counts)) => m.insert(name, counts),
            None => m,
        }
    }
}

/// Parses the contents of `/proc/diskstats` into a table from device name to
/// `(sectors read, sectors written)`.
pub fn parse_diskstats(content: &str) -> (r: Vec<(String, (u64, u64))>)
    ensures
        table_map(r@) == diskstats_map(lines(content@)),
{
    let cs = chars_of(content);
    let ls = split_lines(&cs);
    let ghost all = ls.deep_view();
    let mut r: Vec<(String, (u64, u64))> = Vec::new();
    let mut i: usize = 0;
    assert(all.take(0) =~= Seq::<Seq<char>>::empty());
    assert(table_map(r@) =~= Map::<Seq<char>, (u64, u64)>::empty());
    while i < ls.len()
        invariant
            i <= ls.len(),
            all == ls.deep_view(),
            all == lines(content@),
            table_map(r@) == diskstats_map(all.take(i as int)),
        decreases ls.len() - i,
    {
        let ghost before = r@;
        let line = &ls[i];
        assert(line@ =~= all[i as int]);
        let w = split_words(line);
        assert(all.take(i + 1).drop_last() =~= all.take(i as int));
        assert(all.take(i + 1).last() == all[i as int]);
        if w.len() >= 10 {
            let reads = parse_u64_chars(&w[5]);
            let writes = parse_u64_chars(&w[9]);
            assert(w[5]@ =~= w.deep_view()[5]);
            assert(w[9]@ =~= w.deep_view()[9]);
            assert(w[2]@ =~= w.deep_view()[2]);
            if reads.is_some() && writes.is_some() {
                let name = string_of(&w[2]);
                let counts = (reads.unwrap(), writes.unwrap());
                set_entry(&mut r, name, counts);
                assert(table_map(r@) =~= table_map(before).insert(name@, counts));
            }
        }
        i += 1;
    }
    assert(all.take(ls.len() as int) =~= all);
    r
}

// ───────────────────────────── display names ─────────────────────────────

/// The label of a drive: its device name, then `" · "` and its model when
/// the model is known (`"nvme0n1 · WD_BLACK SN770 1TB"`).
pub open spec fn display_name(dev: Seq<char>, model: Option<Seq<char>>) -> Seq<char> {
    match model {
        Some(m) => dev + " · "@ + m,
        None => dev,
    }
}

/// The label of drive `dev` with model `model`.
pub fn make_display_name(dev: &String, model: Option<&String>) -> (r: String)
    ensures
        r@ == display_name(
            dev@,
            match model {
                Some(m) => Some(m@),
                None => None,
            },
        ),
{
    match model {
        Some(m) => {
            let mut cs = chars_of(dev.as_str());
            let mut sep = chars_of(" · ");
            let mut mc = chars_of(m.as_str());
            cs.append(&mut sep);
            cs.append(&mut mc);
            string_of(&cs)
        },
        None => dev.clone(),
    }
}

// ───────────────────────────── throughput ─────────────────────────────

/// `a - b`, or zero when `b` is larger (`u64::saturating_sub`).
pub open spec fn sat_sub(a: u64, b: u64) -> int {
    if a >= b {
        a - b
    } else {
        0
    }
}

/// One sample as the monitor reports it: the drive, its label, and the bytes
/// read and written since the previous sample.
pub struct DiskSample {
    pub device: String,
    pub name: String,
    pub read_bytes: u128,
    pub write_bytes: u128,
}

/// A sample as plain values.
pub struct SampleView {
    pub device: Seq<char>,
    pub name: Seq<char>,
    pub read_bytes: int,
    pub write_bytes: int,
}

/// A sample as plain values.
pub open spec fn sample_view(s: DiskSample) -> SampleView {
    SampleView {
        device: s.device@,
        name: s.name@,
        read_bytes: s.read_bytes as int,
        write_bytes: s.write_bytes as int,
    }
}

/// Samples as plain values.
pub open spec fn samples_view(s: Seq<DiskSample>) -> Seq<SampleView> {
    s.map_values(|x: DiskSample| sample_view(x))
}

/// Device names as plain values.
pub open spec fn names_view(s: Seq<String>) -> Seq<Seq<char>> {
    s.map_values(|x: String| x@)
}

/// The model recorded for `dev` in `models`, if any.
pub open spec fn model_of(models: Map<Seq<char>, Seq<char>>, dev: Seq<char>) -> Option<
    Seq<char>,
> {
    if models.contains_key(dev) {
        Some(models[dev])
    } else {
        None
    }
}

/// One drive's turn in an update: the drive's counters now are `now`; the
/// result is the new counters table, the new label table and the sample.
/// A drive seen for the first time is compared with itself (zero throughput)
/// and gets its label made from its model; later the cached label is kept.
pub open spec fn disk_step(
    prev: Map<Seq<char>, (u64, u64)>,
    display: Map<Seq<char>, Seq<char>>,
    dev: Seq<char>,
    now: (u64, u64),
    models: Map<Seq<char>, Seq<char>>,
) -> (Map<Seq<char>, (u64, u64)>, Map<Seq<char>, Seq<char>>, SampleView) {
    let before = if prev.contains_key(dev) {
        prev[dev]
    } else {
        now
    };
    let name = if display.contains_key(dev) {
        display[dev]
    } else {
        display_name(dev, model_of(models, dev))
    };
    (
        prev.insert(dev, now),
        display.insert(dev, name),
        SampleView {
            device: dev,
            name,
            read_bytes: sat_sub(now.0, before.0) * SECTOR_BYTES,
            write_bytes: sat_sub(now.1, before.1) * SECTOR_BYTES,
        },
    )
}

/// An update over the drives `devices`, in order, after the samples `out`:
/// drives missing from `stats` are skipped, and nothing more is done once
/// `MAX_DISKS` samples are taken.
pub open spec fn disk_run(
    prev: Map<Seq<char>, (u64, u64)>,
    display: Map<Seq<char>, Seq<char>>,
    devices: Seq<Seq<char>>,
    stats: Map<Seq<char>, (u64, u64)>,
    models: Map<Seq<char>, Seq<char>>,
    out: Seq<SampleView>,
) -> (Map<Seq<char>, (u64, u64)>, Map<Seq<char>, Seq<char>>, Seq<SampleView>)
    decreases devices.len(),
{
    if devices.len() == 0 || out.len() >= MAX_DISKS {
        (prev, display, out)
    } else if stats.contains_key(devices[0]) {
        let (p2, d2, s) = disk_step(prev, display, devices[0], stats[devices[0]], models);
        disk_run(p2, d2, devices.drop_first(), stats, models, out.push(s))
    } else {
        disk_run(prev, display, devices.drop_first(), stats, models, out)
    }
}

/// Tracks the throughput of the physical drives between two samples.
pub struct DiskMonitor {
    /// The drives to sample, found once when the monitor is made.
    devices: Vec<String>,
    /// The counters of each drive at its previous sample.
    prev: Vec<(String, (u64, u64))>,
    /// The label of each drive, made once when the drive is first seen.
    display: Vec<(String, String)>,
}

impl View for DiskMonitor {
    /// The counters and the labels of the drives seen so far, and the drives
    /// to sample.
    type V = (Map<Seq<char>, (u64, u64)>, Map<Seq<char>, Seq<char>>, Seq<Seq<char>>);

    closed spec fn view(&self) -> Self::V {
        (table_map(self.prev@), text_map(self.display@), names_view(self.devices@))
    }
}

impl DiskMonitor {
    /// A monitor of the physical drives among the block devices `names`
    /// (the entries of `/sys/block/`), which have not been sampled yet. The
    /// drives are found here once; later updates sample these drives only.
    pub fn new(names: &Vec<String>) -> (m: Self)
        ensures
            m@.0 == Map::<Seq<char>, (u64, u64)>::empty(),
            m@.1 == Map::<Seq<char>, Seq<char>>::empty(),
            sorted_names(m@.2),
            m@.2.to_multiset() == names_view(names@).filter(|n: Seq<char>| is_physical(n)).to_multiset(),
    {
        let devices = physical_devices(names);
        let m = DiskMonitor { devices, prev: Vec::new(), display: Vec::new() };
        assert(m@.0 =~= Map::<Seq<char>, (u64, u64)>::empty());
        assert(m@.1 =~= Map::<Seq<char>, Seq<char>>::empty());
        m
    }

    /// The drives that the monitor samples, in order.
    pub fn devices(&self) -> (r: Vec<String>)
        ensures
            names_view(r@) == self@.2,
    {
        let mut r: Vec<String> = Vec::new();
        let mut i: usize = 0;
        while i < self.devices.len()
            invariant
                i <= self.devices.len(),
                r.len() == i,
                forall|j: int| 0 <= j < i ==> (#[trigger] r@[j])@ == self.devices@[j]@,
            decreases self.devices.len() - i,
        {
            let d = self.devices[i].clone();
            r.push(d);
            i += 1;
        }
        assert(names_view(r@) =~= names_view(self.devices@));
        r
    }

    /// Whether drive `dev` has no label yet, so that its model is still to be
    /// looked up.
    pub fn needs_model(&self, dev: &String) -> (r: bool)
        ensures
            r == !self@.1.contains_key(dev@),
    {
        find_key(&self.display, dev).is_none()
    }

    /// Samples the monitor's drives, in order, given the current counters
    /// `stats` and the models of the drives that have no label yet. Returns at
    /// most `MAX_DISKS` samples, one per drive that `stats` knows.
    pub fn update(
        &mut self,
        stats: &Vec<(String, (u64, u64))>,
        models: &Vec<(String, String)>,
    ) -> (out: Vec<DiskSample>)
        ensures
            final(self)@.2 == old(self)@.2,
            (final(self)@.0, final(self)@.1, samples_view(out@)) == disk_run(
                old(self)@.0,
                old(self)@.1,
                old(self)@.2,
                table_map(stats@),
                text_map(models@),
                Seq::empty(),
            ),
    {
        let devices = &self.devices;
        let ghost devs = names_view(devices@);
        let ghost st = table_map(stats@);
        let ghost md = text_map(models@);
        let ghost goal = disk_run(self@.0, self@.1, devs, st, md, Seq::empty());
        let mut out: Vec<DiskSample> = Vec::new();
        let mut i: usize = 0;
        assert(devs.subrange(0, devs.len() as int) =~= devs);
        assert(samples_view(out@) =~= Seq::<SampleView>::empty());
        while i < devices.len()
            invariant_except_break
                out.len() < MAX_DISKS,
            invariant
                i <= devices.len(),
                devs == names_view(devices@),
                devs == self@.2,
                st == table_map(stats@),
                md == text_map(models@),
                out.len() <= MAX_DISKS,
                goal == disk_run(
                    self@.0,
                    self@.1,
                    devs.subrange(i as int, devs.len() as int),
                    st,
                    md,
                    samples_view(out@),
                ),
            ensures
                goal == (self@.0, self@.1, samples_view(out@)),
                devs == self@.2,
            decreases devices.len() - i,
        {
            let dev = &devices[i];
            let ghost rest = devs.subrange(i as int, devs.len() as int);
            assert(rest[0] == dev@);
            assert(rest.drop_first() =~= devs.subrange(i + 1, devs.len() as int));
            match find_key(stats, dev) {
                None => {
                    i += 1;
                },
                Some(si) => {
                    let now = stats[si].1;
                    let ghost p0 = self@.0;
                    let ghost d0 = self@.1;
                    let ghost step = disk_step(p0, d0, dev@, now, md);
                    let before = match find_key(&self.prev, dev) {
                        Some(pi) => self.prev[pi].1,
                        None => now,
                    };
                    let read_bytes = (now.0.saturating_sub(before.0) as u128) * SECTOR_BYTES;
                    let write_bytes = (now.1.saturating_sub(before.1) as u128) * SECTOR_BYTES;
                    set_entry(&mut self.prev, dev.clone(), now);
                    assert(table_map(self.prev@) =~= p0.insert(dev@, now));
                    let name = match find_key(&self.display, dev) {
                        Some(di) => self.display[di].1.clone(),
                        None => {
                            let label = match find_key(models, dev) {
                                Some(mi) => make_display_name(dev, Some(&models[mi].1)),
                                None => make_display_name(dev, None),
                            };
                            set_entry(&mut self.display, dev.clone(), label.clone());
                            label
                        },
                    };
                    assert(text_map(self.display@) =~= d0.insert(dev@, name@));
                    let sample = DiskSample { device: dev.clone(), name, read_bytes, write_bytes };
                    let ghost out_before = samples_view(out@);
                    out.push(sample);
                    assert(samples_view(out@) =~= out_before.push(step.2));
                    i += 1;
                    if out.len() == MAX_DISKS {
                        assert(samples_view(out@).len() == MAX_DISKS);
                        assert(disk_run(
                            self@.0,
                            self@.1,
                            devs.subrange(i as int, devs.len() as int),
                            st,
                            md,
                            samples_view(out@),
                        ) == (self@.0, self@.1, samples_view(out@)));
                        break;
                    }
                },
            }
        }
        out
    }
}

// ───────────────────────────── laws ─────────────────────────────

/// An update continued after the samples `out` adds to them and stops at
/// `MAX_DISKS` samples.
proof fn run_at_most_max_disks_from(
    prev: Map<Seq<char>, (u64, u64)>,
    display: Map<Seq<char>, Seq<char>>,
    devices: Seq<Seq<char>>,
    stats: Map<Seq<char>, (u64, u64)>,
    models: Map<Seq<char>, Seq<char>>,
    out: Seq<SampleView>,
)
    requires
        out.len() <= MAX_DISKS,
    ensures
        disk_run(prev, display, devices, stats, models, out).2.len() <= MAX_DISKS,
        out.is_prefix_of(disk_run(prev, display, devices, stats, models, out).2),
    decreases devices.len(),
{
    if devices.len() == 0 || out.len() >= MAX_DISKS {
    } else if stats.contains_key(devices[0]) {
        let (p2, d2, smp) = disk_step(prev, display, devices[0], stats[devices[0]], models);
        run_at_most_max_disks_from(p2, d2, devices.drop_first(), stats, models, out.push(smp));
    } else {
        run_at_most_max_disks_from(prev, display, devices.drop_first(), stats, models, out);
    }
}

/// `prev` holds, for every drive that `stats` also knows, the same counters.
pub open spec fn counters_unchanged(
    prev: Map<Seq<char>, (u64, u64)>,
    stats: Map<Seq<char>, (u64, u64)>,
) -> bool {
    forall|k: Seq<char>|
        #![trigger prev.contains_key(k), stats.contains_key(k)]
        prev.contains_key(k) && stats.contains_key(k) ==> prev[k] == stats[k]
}

/// An update continued after zero-throughput samples `out`, over counters
/// that have not moved, adds only zero-throughput samples.
proof fn unchanged_counters_read_zero_from(
    prev: Map<Seq<char>, (u64, u64)>,
    display: Map<Seq<char>, Seq<char>>,
    devices: Seq<Seq<char>>,
    stats: Map<Seq<char>, (u64, u64)>,
    models: Map<Seq<char>, Seq<char>>,
    out: Seq<SampleView>,
)
    requires
        counters_unchanged(prev, stats),
        forall|i: int| 0 <= i < out.len() ==> (#[trigger] out[i]).read_bytes == 0 && out[i].write_bytes == 0,
    ensures
        ({
            let r = disk_run(prev, display, devices, stats, models, out).2;
            forall|i: int| 0 <= i < r.len() ==> (#[trigger] r[i]).read_bytes == 0 && r[i].write_bytes == 0
        }),
    decreases devices.len(),
{
    if devices.len() == 0 || out.len() >= MAX_DISKS {
    } else if stats.contains_key(devices[0]) {
        let dev = devices[0];
        let (p2, d2, smp) = disk_step(prev, display, dev, stats[dev], models);
        assert(counters_unchanged(p2, stats)) by {
            assert forall|k: Seq<char>| p2.contains_key(k) && stats.contains_key(k) implies p2[k]
                == stats[k] by {
                if k != dev {
                    assert(prev.contains_key(k));
                }
            }
        }
        if prev.contains_key(dev) {
            assert(prev[dev] == stats[dev]);
        }
        assert(smp.read_bytes == 0 && smp.write_bytes == 0);
        let o2 = out.push(smp);
        assert(disk_run(prev, display, devices, stats, models, out) == disk_run(
            p2,
            d2,
            devices.drop_first(),
            stats,
            models,
            o2,
        ));
        assert forall|i: int| 0 <= i < o2.len() implies (#[trigger] o2[i]).read_bytes == 0
            && o2[i].write_bytes == 0 by {
            if i < out.len() {
                assert(o2[i] == out[i]);
            }
        }
        unchanged_counters_read_zero_from(p2, d2, devices.drop_first(), stats, models, o2);
    } else {
        assert(disk_run(prev, display, devices, stats, models, out) == disk_run(
            prev,
            display,
            devices.drop_first(),
            stats,
            models,
            out,
        ));
        unchanged_counters_read_zero_from(
            prev,
            display,
            devices.drop_first(),
            stats,
            models,
            out,
        );
    }
}

/// An update continued after the samples `out` keeps every existing label.
proof fn labels_are_kept_from(
    prev: Map<Seq<char>, (u64, u64)>,
    display: Map<Seq<char>, Seq<char>>,
    devices: Seq<Seq<char>>,
    stats: Map<Seq<char>, (u64, u64)>,
    models: Map<Seq<char>, Seq<char>>,
    out: Seq<SampleView>,
)
    ensures
        ({
            let d = disk_run(prev, display, devices, stats, models, out).1;
            forall|k: Seq<char>| #[trigger]
                display.contains_key(k) ==> d.contains_key(k) && d[k] == display[k]
        }),
    decreases devices.len(),
{
    if devices.len() == 0 || out.len() >= MAX_DISKS {
    } else if stats.contains_key(devices[0]) {
        let (p2, d2, smp) = disk_step(prev, display, devices[0], stats[devices[0]], models);
        labels_are_kept_from(p2, d2, devices.drop_first(), stats, models, out.push(smp));
        assert forall|k: Seq<char>| #[trigger] display.contains_key(k) implies d2.contains_key(k)
            && d2[k] == display[k] by {}
    } else {
        labels_are_kept_from(prev, display, devices.drop_first(), stats, models, out);
    }
}

/// An update continued after the samples `out` stores, for each drive, its
/// earlier counters or its current ones.
proof fn counters_recorded_from(
    prev: Map<Seq<char>, (u64, u64)>,
    display: Map<Seq<char>, Seq<char>>,
    devices: Seq<Seq<char>>,
    stats: Map<Seq<char>, (u64, u64)>,
    models: Map<Seq<char>, Seq<char>>,
    out: Seq<SampleView>,
)
    ensures
        ({
            let p = disk_run(prev, display, devices, stats, models, out).0;
            forall|k: Seq<char>| #[trigger]
                p.contains_key(k) ==> (stats.contains_key(k) && p[k] == stats[k]) || (
                prev.contains_key(k) && p[k] == prev[k])
        }),
    decreases devices.len(),
{
    if devices.len() == 0 || out.len() >= MAX_DISKS {
    } else if stats.contains_key(devices[0]) {
        let (p2, d2, smp) = disk_step(prev, display, devices[0], stats[devices[0]], models);
        counters_recorded_from(p2, d2, devices.drop_first(), stats, models, out.push(smp));
        let p = disk_run(p2, d2, devices.drop_first(), stats, models, out.push(smp)).0;
        assert(disk_run(prev, display, devices, stats, models, out).0 == p);
        assert forall|k: Seq<char>| #[trigger] p.contains_key(k) implies (stats.contains_key(k)
            && p[k] == stats[k]) || (prev.contains_key(k) && p[k] == prev[k]) by {
            if k != devices[0] && p2.contains_key(k) && p[k] == p2[k] {
                assert(prev.contains_key(k));
            }
        }
    } else {
        assert(disk_run(prev, display, devices, stats, models, out) == disk_run(
            prev,
            display,
            devices.drop_first(),
            stats,
            models,
            out,
        ));
        counters_recorded_from(prev, display, devices.drop_first(), stats, models, out);
    }
}

/// No update reports more than `MAX_DISKS` drives.
pub proof fn lemma_update_reports_at_most_max_disks(
    prev: Map<Seq<char>, (u64, u64)>,
    display: Map<Seq<char>, Seq<char>>,
    devices: Seq<Seq<char>>,
    stats: Map<Seq<char>, (u64, u64)>,
    models: Map<Seq<char>, Seq<char>>,
)
    ensures
        disk_run(prev, display, devices, stats, models, Seq::empty()).2.len() <= MAX_DISKS,
{
    run_at_most_max_disks_from(prev, display, devices, stats, models, Seq::empty());
}

/// Drives whose counters have not moved since their previous sample, and
/// drives seen for the first time, show zero throughput.
pub proof fn lemma_unmoved_counters_read_zero(
    prev: Map<Seq<char>, (u64, u64)>,
    display: Map<Seq<char>, Seq<char>>,
    devices: Seq<Seq<char>>,
    stats: Map<Seq<char>, (u64, u64)>,
    models: Map<Seq<char>, Seq<char>>,
)
    requires
        counters_unchanged(prev, stats),
    ensures
        ({
            let r = disk_run(prev, display, devices, stats, models, Seq::empty()).2;
            forall|i: int| 0 <= i < r.len() ==> (#[trigger] r[i]).read_bytes == 0 && r[i].write_bytes == 0
        }),
{
    unchanged_counters_read_zero_from(prev, display, devices, stats, models, Seq::empty());
}

/// The first update of a new monitor has no previous counters to compare
/// with: every drive it reports shows zero throughput.
pub proof fn lemma_first_update_reads_zero(
    devices: Seq<Seq<char>>,
    stats: Map<Seq<char>, (u64, u64)>,
    models: Map<Seq<char>, Seq<char>>,
)
    ensures
        ({
            let r = disk_run(Map::empty(), Map::empty(), devices, stats, models, Seq::empty()).2;
            forall|i: int| 0 <= i < r.len() ==> (#[trigger] r[i]).read_bytes == 0 && r[i].write_bytes == 0
        }),
{
    unchanged_counters_read_zero_from(
        Map::empty(),
        Map::empty(),
        devices,
        stats,
        models,
        Seq::empty(),
    );
}

/// A drive's label is made once, when the drive is first seen, and never
/// changes afterwards.
pub proof fn lemma_labels_are_kept(
    prev: Map<Seq<char>, (u64, u64)>,
    display: Map<Seq<char>, Seq<char>>,
    devices: Seq<Seq<char>>,
    stats: Map<Seq<char>, (u64, u64)>,
    models: Map<Seq<char>, Seq<char>>,
)
    ensures
        ({
            let d = disk_run(prev, display, devices, stats, models, Seq::empty()).1;
            forall|k: Seq<char>| #[trigger]
                display.contains_key(k) ==> d.contains_key(k) && d[k] == display[k]
        }),
{
    labels_are_kept_from(prev, display, devices, stats, models, Seq::empty());
}

/// After an update each drive's stored counters are either those it had
/// before or its current ones: the next update measures from this sample.
pub proof fn lemma_counters_recorded(
    prev: Map<Seq<char>, (u64, u64)>,
    display: Map<Seq<char>, Seq<char>>,
    devices: Seq<Seq<char>>,
    stats: Map<Seq<char>, (u64, u64)>,
    models: Map<Seq<char>, Seq<char>>,
)
    ensures
        ({
            let p = disk_run(prev, display, devices, stats, models, Seq::empty()).0;
            forall|k: Seq<char>| #[trigger]
                p.contains_key(k) ==> (stats.contains_key(k) && p[k] == stats[k]) || (
                prev.contains_key(k) && p[k] == prev[k])
        }),
{
    counters_recorded_from(prev, display, devices, stats, models, Seq::empty());
}

/// The label that drive `dev` has after an update that started from the
/// label table `display`: the label it had, or else the one made from its
/// model.
pub open spec fn label_for(
    display: Map<Seq<char>, Seq<char>>,
    models: Map<Seq<char>, Seq<char>>,
    dev: Seq<char>,
) -> Seq<char> {
    if display.contains_key(dev) {
        display[dev]
    } else {
        display_name(dev, model_of(models, dev))
    }
}

/// An update continued from labels `display`, which grew out of `display0`,
/// gives every sample and every new label the label that `label_for`
/// assigns from `display0`.
proof fn samples_carry_labels_from(
    display0: Map<Seq<char>, Seq<char>>,
    prev: Map<Seq<char>, (u64, u64)>,
    display: Map<Seq<char>, Seq<char>>,
    devices: Seq<Seq<char>>,
    stats: Map<Seq<char>, (u64, u64)>,
    models: Map<Seq<char>, Seq<char>>,
    out: Seq<SampleView>,
)
    requires
        forall|k: Seq<char>| #[trigger] display0.contains_key(k) ==> display.contains_key(k),
        forall|k: Seq<char>| #[trigger]
            display.contains_key(k) ==> display[k] == label_for(display0, models, k),
        forall|j: int|
            0 <= j < out.len() ==> (#[trigger] out[j]).name == label_for(
                display0,
                models,
                out[j].device,
            ),
    ensures
        ({
            let (p, d, r) = disk_run(prev, display, devices, stats, models, out);
            &&& forall|j: int|
                0 <= j < r.len() ==> (#[trigger] r[j]).name == label_for(
                    display0,
                    models,
                    r[j].device,
                )
            &&& forall|k: Seq<char>| #[trigger]
                d.contains_key(k) ==> d[k] == label_for(display0, models, k)
        }),
    decreases devices.len(),
{
    if devices.len() == 0 || out.len() >= MAX_DISKS {
    } else if stats.contains_key(devices[0]) {
        let dev = devices[0];
        let (p2, d2, smp) = disk_step(prev, display, dev, stats[dev], models);
        assert(smp.name == label_for(display0, models, dev));
        let o2 = out.push(smp);
        assert forall|j: int| 0 <= j < o2.len() implies (#[trigger] o2[j]).name == label_for(
            display0,
            models,
            o2[j].device,
        ) by {
            if j < out.len() {
                assert(o2[j] == out[j]);
            }
        }
        assert forall|k: Seq<char>| #[trigger] d2.contains_key(k) implies d2[k] == label_for(
            display0,
            models,
            k,
        ) by {
            if k != dev {
                assert(display.contains_key(k));
            }
        }
        assert(disk_run(prev, display, devices, stats, models, out) == disk_run(
            p2,
            d2,
            devices.drop_first(),
            stats,
            models,
            o2,
        ));
        samples_carry_labels_from(display0, p2, d2, devices.drop_first(), stats, models, o2);
    } else {
        assert(disk_run(prev, display, devices, stats, models, out) == disk_run(
            prev,
            display,
            devices.drop_first(),
            stats,
            models,
            out,
        ));
        samples_carry_labels_from(
            display0,
            prev,
            display,
            devices.drop_first(),
            stats,
            models,
            out,
        );
    }
}

/// Every sample carries its drive's label: the label the drive already had,
/// or, for a drive seen for the first time, its device name and the model
/// read for it (`"nvme0n1 · WD_BLACK SN770 1TB"`); the label table then holds
/// that same label, which later updates keep (`lemma_labels_are_kept`).
pub proof fn lemma_samples_carry_labels(
    prev: Map<Seq<char>, (u64, u64)>,
    display: Map<Seq<char>, Seq<char>>,
    devices: Seq<Seq<char>>,
    stats: Map<Seq<char>, (u64, u64)>,
    models: Map<Seq<char>, Seq<char>>,
)
    ensures
        ({
            let (p, d, r) = disk_run(prev, display, devices, stats, models, Seq::empty());
            forall|j: int|
                0 <= j < r.len() ==> (#[trigger] r[j]).name == label_for(display, models, r[j].device)
                    && d.contains_key(r[j].device) && d[r[j].device] == r[j].name
        }),
{
    samples_carry_labels_from(display, prev, display, devices, stats, models, Seq::empty());
    samples_from_devices_from(prev, display, devices, devices, stats, models, Seq::empty());
    let (p, d, r) = disk_run(prev, display, devices, stats, models, Seq::empty());
    assert forall|j: int| 0 <= j < r.len() implies (#[trigger] r[j]).name == label_for(
        display,
        models,
        r[j].device,
    ) && d.contains_key(r[j].device) && d[r[j].device] == r[j].name by {
        assert(d.contains_key(r[j].device));
    }
}

/// An update continued over drives taken from `all`, after samples of drives
/// from `all` that `stats` knows, samples only such drives and records their
/// labels.
proof fn samples_from_devices_from(
    prev: Map<Seq<char>, (u64, u64)>,
    display: Map<Seq<char>, Seq<char>>,
    all: Seq<Seq<char>>,
    devices: Seq<Seq<char>>,
    stats: Map<Seq<char>, (u64, u64)>,
    models: Map<Seq<char>, Seq<char>>,
    out: Seq<SampleView>,
)
    requires
        forall|i: int| 0 <= i < devices.len() ==> all.contains(#[trigger] devices[i]),
        forall|j: int|
            0 <= j < out.len() ==> all.contains((#[trigger] out[j]).device) && stats.contains_key(
                out[j].device,
            ) && display.contains_key(out[j].device),
    ensures
        ({
            let (p, d, r) = disk_run(prev, display, devices, stats, models, out);
            forall|j: int|
                0 <= j < r.len() ==> all.contains((#[trigger] r[j]).device) && stats.contains_key(
                    r[j].device,
                ) && d.contains_key(r[j].device)
        }),
    decreases devices.len(),
{
    if devices.len() == 0 || out.len() >= MAX_DISKS {
    } else if stats.contains_key(devices[0]) {
        let dev = devices[0];
        let (p2, d2, smp) = disk_step(prev, display, dev, stats[dev], models);
        let o2 = out.push(smp);
        assert(all.contains(devices[0]));
        assert forall|j: int| 0 <= j < o2.len() implies all.contains((#[trigger] o2[j]).device)
            && stats.contains_key(o2[j].device) && d2.contains_key(o2[j].device) by {
            if j < out.len() {
                assert(o2[j] == out[j]);
            }
        }
        assert forall|i: int| 0 <= i < devices.drop_first().len() implies all.contains(
            #[trigger] devices.drop_first()[i],
        ) by {
            assert(devices.drop_first()[i] == devices[i + 1]);
        }
        assert(disk_run(prev, display, devices, stats, models, out) == disk_run(
            p2,
            d2,
            devices.drop_first(),
            stats,
            models,
            o2,
        ));
        samples_from_devices_from(p2, d2, all, devices.drop_first(), stats, models, o2);
    } else {
        assert forall|i: int| 0 <= i < devices.drop_first().len() implies all.contains(
            #[trigger] devices.drop_first()[i],
        ) by {
            assert(devices.drop_first()[i] == devices[i + 1]);
        }
        assert(disk_run(prev, display, devices, stats, models, out) == disk_run(
            prev,
            display,
            devices.drop_first(),
            stats,
            models,
            out,
        ));
        samples_from_devices_from(prev, display, all, devices.drop_first(), stats, models, out);
    }
}

/// An update samples only the monitor's own drives (those found when it was
/// made), and only drives that `stats` knows.
pub proof fn lemma_samples_from_devices(
    prev: Map<Seq<char>, (u64, u64)>,
    display: Map<Seq<char>, Seq<char>>,
    devices: Seq<Seq<char>>,
    stats: Map<Seq<char>, (u64, u64)>,
    models: Map<Seq<char>, Seq<char>>,
)
    ensures
        ({
            let r = disk_run(prev, display, devices, stats, models, Seq::empty()).2;
            forall|j: int|
                0 <= j < r.len() ==> devices.contains((#[trigger] r[j]).device)
                    && stats.contains_key(r[j].device)
        }),
{
    assert forall|i: int| 0 <= i < devices.len() implies devices.contains(#[trigger] devices[i]) by {}
    samples_from_devices_from(prev, display, devices, devices, stats, models, Seq::empty());
}

/// Sample `j` of `r` is the first one of its drive.
pub open spec fn first_report(r: Seq<SampleView>, j: int) -> bool {
    &&& 0 <= j < r.len()
    &&& forall|k: int| 0 <= k < j ==> (#[trigger] r[k]).device != r[j].device
}

/// The counters a drive is measured against: those stored for it, or its
/// current ones when none are stored.
pub open spec fn baseline(
    prev: Map<Seq<char>, (u64, u64)>,
    stats: Map<Seq<char>, (u64, u64)>,
    dev: Seq<char>,
) -> (u64, u64) {
    if prev.contains_key(dev) {
        prev[dev]
    } else {
        stats[dev]
    }
}

/// Some sample of `out` is of drive `k`.
pub open spec fn sampled(out: Seq<SampleView>, k: Seq<char>) -> bool {
    exists|j: int| 0 <= j < out.len() && (#[trigger] out[j]).device == k
}

/// `prev` and `prev0` store the same counters for drive `k`.
pub open spec fn agrees_at(
    prev: Map<Seq<char>, (u64, u64)>,
    prev0: Map<Seq<char>, (u64, u64)>,
    k: Seq<char>,
) -> bool {
    prev.contains_key(k) == prev0.contains_key(k) && (prev.contains_key(k) ==> prev[k] == prev0[k])
}

/// Sample `j` of `r` measures its drive's current counters against `prev0`.
pub open spec fn measured_from(
    prev0: Map<Seq<char>, (u64, u64)>,
    stats: Map<Seq<char>, (u64, u64)>,
    r: Seq<SampleView>,
    j: int,
) -> bool {
    &&& stats.contains_key(r[j].device)
    &&& r[j].read_bytes == sat_sub(stats[r[j].device].0, baseline(prev0, stats, r[j].device).0)
        * SECTOR_BYTES
    &&& r[j].write_bytes == sat_sub(stats[r[j].device].1, baseline(prev0, stats, r[j].device).1)
        * SECTOR_BYTES
}

/// An update continued from counters `prev`, which differ from `prev0` only
/// at drives already sampled in `out`, measures the first sample of every
/// drive against `prev0`.
proof fn first_reports_measure_from_from(
    prev0: Map<Seq<char>, (u64, u64)>,
    prev: Map<Seq<char>, (u64, u64)>,
    display: Map<Seq<char>, Seq<char>>,
    devices: Seq<Seq<char>>,
    stats: Map<Seq<char>, (u64, u64)>,
    models: Map<Seq<char>, Seq<char>>,
    out: Seq<SampleView>,
)
    requires
        forall|k: Seq<char>| #[trigger] agrees_at(prev, prev0, k) || sampled(out, k),
        forall|j: int| first_report(out, j) ==> #[trigger] measured_from(prev0, stats, out, j),
    ensures
        ({
            let r = disk_run(prev, display, devices, stats, models, out).2;
            forall|j: int| first_report(r, j) ==> #[trigger] measured_from(prev0, stats, r, j)
        }),
    decreases devices.len(),
{
    if devices.len() == 0 || out.len() >= MAX_DISKS {
    } else if stats.contains_key(devices[0]) {
        let dev = devices[0];
        let (p2, d2, smp) = disk_step(prev, display, dev, stats[dev], models);
        let o2 = out.push(smp);
        assert(o2[out.len() as int].device == dev);
        assert forall|k: Seq<char>| #[trigger] agrees_at(p2, prev0, k) || sampled(o2, k) by {
            if k == dev {
                assert(sampled(o2, k));
            } else if sampled(out, k) {
                let j = choose|j: int| 0 <= j < out.len() && (#[trigger] out[j]).device == k;
                assert(o2[j] == out[j]);
            } else {
                assert(agrees_at(prev, prev0, k));
            }
        }
        assert forall|j: int| first_report(o2, j) implies #[trigger] measured_from(
            prev0,
            stats,
            o2,
            j,
        ) by {
            if j < out.len() {
                assert(o2[j] == out[j]);
                assert forall|k: int| 0 <= k < j implies (#[trigger] out[k]).device
                    != out[j].device by {
                    assert(o2[k] == out[k]);
                }
                assert(first_report(out, j));
                assert(measured_from(prev0, stats, out, j));
            } else {
                assert(!sampled(out, dev)) by {
                    if sampled(out, dev) {
                        let k = choose|k: int| 0 <= k < out.len() && (#[trigger] out[k]).device
                            == dev;
                        assert(o2[k] == out[k]);
                    }
                }
                assert(agrees_at(prev, prev0, dev));
            }
        }
        assert(disk_run(prev, display, devices, stats, models, out) == disk_run(
            p2,
            d2,
            devices.drop_first(),
            stats,
            models,
            o2,
        ));
        first_reports_measure_from_from(prev0, p2, d2, devices.drop_first(), stats, models, o2);
    } else {
        assert(disk_run(prev, display, devices, stats, models, out) == disk_run(
            prev,
            display,
            devices.drop_first(),
            stats,
            models,
            out,
        ));
        first_reports_measure_from_from(
            prev0,
            prev,
            display,
            devices.drop_first(),
            stats,
            models,
            out,
        );
    }
}

/// An update continued after samples whose counters are stored ends with the
/// current counters stored for every drive sampled.
proof fn reported_counters_stored_from(
    prev: Map<Seq<char>, (u64, u64)>,
    display: Map<Seq<char>, Seq<char>>,
    devices: Seq<Seq<char>>,
    stats: Map<Seq<char>, (u64, u64)>,
    models: Map<Seq<char>, Seq<char>>,
    out: Seq<SampleView>,
)
    requires
        forall|j: int|
            0 <= j < out.len() ==> stats.contains_key((#[trigger] out[j]).device)
                && prev.contains_key(out[j].device) && prev[out[j].device] == stats[out[j].device],
    ensures
        ({
            let (p, d, r) = disk_run(prev, display, devices, stats, models, out);
            forall|j: int|
                0 <= j < r.len() ==> stats.contains_key((#[trigger] r[j]).device)
                    && p.contains_key(r[j].device) && p[r[j].device] == stats[r[j].device]
        }),
    decreases devices.len(),
{
    if devices.len() == 0 || out.len() >= MAX_DISKS {
    } else if stats.contains_key(devices[0]) {
        let dev = devices[0];
        let (p2, d2, smp) = disk_step(prev, display, dev, stats[dev], models);
        let o2 = out.push(smp);
        assert forall|j: int| 0 <= j < o2.len() implies stats.contains_key(
            (#[trigger] o2[j]).device,
        ) && p2.contains_key(o2[j].device) && p2[o2[j].device] == stats[o2[j].device] by {
            if j < out.len() {
                assert(o2[j] == out[j]);
            }
        }
        assert(disk_run(prev, display, devices, stats, models, out) == disk_run(
            p2,
            d2,
            devices.drop_first(),
            stats,
            models,
            o2,
        ));
        reported_counters_stored_from(p2, d2, devices.drop_first(), stats, models, o2);
    } else {
        assert(disk_run(prev, display, devices, stats, models, out) == disk_run(
            prev,
            display,
            devices.drop_first(),
            stats,
            models,
            out,
        ));
        reported_counters_stored_from(prev, display, devices.drop_first(), stats, models, out);
    }
}

/// Throughput between two updates: when one update reports drive `d` with
/// counters `stats1[d]` = (r0, w0), the next update that reports `d` with
/// counters `stats2[d]` = (r1, w1) gives it, at its first sample of `d`,
/// `(r1 - r0) * 512` bytes read and `(w1 - w0) * 512` bytes written, a counter
/// that went backwards giving zero.
pub proof fn lemma_successive_updates_throughput(
    prev0: Map<Seq<char>, (u64, u64)>,
    display0: Map<Seq<char>, Seq<char>>,
    devices: Seq<Seq<char>>,
    stats1: Map<Seq<char>, (u64, u64)>,
    models1: Map<Seq<char>, Seq<char>>,
    stats2: Map<Seq<char>, (u64, u64)>,
    models2: Map<Seq<char>, Seq<char>>,
    i: int,
    j: int,
)
    requires
        ({
            let (p1, d1, r1) = disk_run(prev0, display0, devices, stats1, models1, Seq::empty());
            let r2 = disk_run(p1, d1, devices, stats2, models2, Seq::empty()).2;
            &&& 0 <= i < r1.len()
            &&& first_report(r2, j)
            &&& r2[j].device == r1[i].device
        }),
    ensures
        ({
            let (p1, d1, r1) = disk_run(prev0, display0, devices, stats1, models1, Seq::empty());
            let r2 = disk_run(p1, d1, devices, stats2, models2, Seq::empty()).2;
            let dev = r1[i].device;
            &&& r2[j].read_bytes == sat_sub(stats2[dev].0, stats1[dev].0) * SECTOR_BYTES
            &&& r2[j].write_bytes == sat_sub(stats2[dev].1, stats1[dev].1) * SECTOR_BYTES
        }),
{
    let (p1, d1, r1) = disk_run(prev0, display0, devices, stats1, models1, Seq::empty());
    reported_counters_stored_from(prev0, display0, devices, stats1, models1, Seq::empty());
    assert forall|k: Seq<char>| #[trigger] agrees_at(p1, p1, k) || sampled(
        Seq::<SampleView>::empty(),
        k,
    ) by {}
    first_reports_measure_from_from(p1, p1, d1, devices, stats2, models2, Seq::empty());
    let r2 = disk_run(p1, d1, devices, stats2, models2, Seq::empty()).2;
    assert(measured_from(p1, stats2, r2, j));
    assert(p1.contains_key(r1[i].device));
}

/// Exactly the loop devices, RAM disks, device-mapper volumes and zram
/// devices are not physical drives: a block device is a drive precisely when
/// its name starts with none of `"loop"`, `"ram"`, `"dm-"`, `"zram"` (so
/// `"sda"`, `"nvme0n1"`, `"mmcblk0"`, `"vda"` all are).
pub proof fn lemma_physical_exactly(name: Seq<char>)
    ensures
        is_physical(name) <==> !(starts_with(name, "loop"@) || starts_with(name, "ram"@)
            || starts_with(name, "dm-"@) || starts_with(name, "zram"@)),
{
}

/// The physical drives found among `names` are kept whatever else their names
/// hold: every entry that starts with none of the four excluded prefixes is
/// among them, and no other entry is.
pub proof fn lemma_physical_devices_kept(names: Seq<Seq<char>>, n: Seq<char>)
    ensures
        names.filter(|x: Seq<char>| is_physical(x)).contains(n) <==> (names.contains(n) && !(
        starts_with(n, "loop"@) || starts_with(n, "ram"@) || starts_with(n, "dm-"@)
            || starts_with(n, "zram"@))),
{
    let pred = |x: Seq<char>| is_physical(x);
    let f = names.filter(pred);
    if f.contains(n) {
        let i = choose|i: int| 0 <= i < f.len() && f[i] == n;
        names.lemma_filter_pred(pred, i);
        names.lemma_filter_contains_rev(pred, n);
    }
    if names.contains(n) && is_physical(n) {
        let i = choose|i: int| 0 <= i < names.len() && names[i] == n;
        names.lemma_filter_contains(pred, i);
    }
}

/// A diskstats line is read by its fields alone: whenever it has at least ten
/// whitespace-separated fields whose 6th and 10th are the decimal digits of
/// any two `u64` values, it gives its 3rd field with exactly those two values.
pub proof fn lemma_diskstats_line_reads_fields(l: Seq<char>, reads: u64, writes: u64)
    requires
        words(l).len() >= 10,
        words(l)[5] == decimal(reads as nat),
        words(l)[9] == decimal(writes as nat),
    ensures
        diskstats_line(l) == Some((words(l)[2], (reads, writes))),
{
    lemma_parse_u64_decimal(reads);
    lemma_parse_u64_decimal(writes);
}

/// Which lines count: a line gives a device's counters exactly when it has at
/// least ten fields and its 6th and 10th fields are unsigned numbers.
pub proof fn lemma_diskstats_line_accepts(l: Seq<char>)
    ensures
        diskstats_line(l) is Some <==> (words(l).len() >= 10 && parse_u64(words(l)[5]) is Some
            && parse_u64(words(l)[9]) is Some),
        diskstats_line(l) matches Some((name, (r, w))) ==> name == words(l)[2] && Some(r)
            == parse_u64(words(l)[5]) && Some(w) == parse_u64(words(l)[9]),
{
}

/// Line `l` of `/proc/diskstats` gives counters for device `name`.
pub open spec fn gives(l: Seq<char>, name: Seq<char>) -> bool {
    diskstats_line(l) is Some && (diskstats_line(l)->0).0 == name
}

/// The table that `parse_diskstats` gives holds, for each device, the counters
/// of the last line that names it and counts: when line `k` of `ls` gives
/// device `name` counters and no later line gives `name` any, the table maps
/// `name` to those of line `k`; a device that no line gives is absent.
pub proof fn lemma_diskstats_last_line_wins(ls: Seq<Seq<char>>, name: Seq<char>)
    ensures
        diskstats_map(ls).contains_key(name) <==> exists|k: int|
            0 <= k < ls.len() && #[trigger] gives(ls[k], name),
        forall|k: int|
            0 <= k < ls.len() && #[trigger] gives(ls[k], name) && (forall|m: int|
                k < m < ls.len() ==> !gives(ls[m], name)) ==> diskstats_map(ls)[name] == (
            diskstats_line(ls[k])->0).1,
    decreases ls.len(),
{
    if ls.len() > 0 {
        let init = ls.drop_last();
        let last = ls.len() - 1;
        lemma_diskstats_last_line_wins(init, name);
        assert forall|k: int| 0 <= k < init.len() implies init[k] == ls[k] by {}
        if diskstats_map(ls).contains_key(name) && !gives(ls[last], name) {
            let k = choose|k: int| 0 <= k < init.len() && #[trigger] gives(init[k], name);
            assert(init[k] == ls[k]);
        }
        if exists|k: int| 0 <= k < ls.len() && #[trigger] gives(ls[k], name) {
            let k = choose|k: int| 0 <= k < ls.len() && #[trigger] gives(ls[k], name);
            if k < last {
                assert(init[k] == ls[k]);
                assert(gives(init[k], name));
            }
        }
        assert forall|k: int|
            0 <= k < ls.len() && #[trigger] gives(ls[k], name) && (forall|m: int|
                k < m < ls.len() ==> !gives(ls[m], name)) implies diskstats_map(ls)[name] == (
        diskstats_line(ls[k])->0).1 by {
            if k < last {
                assert(!gives(ls[last], name));
                assert(init[k] == ls[k]);
                assert(gives(init[k], name));
                assert forall|m: int| k < m < init.len() implies !gives(init[m], name) by {
                    assert(init[m] == ls[m]);
                }
            }
        }
    }
}

/// The drives of `devices` that `stats` knows, in order.
pub open spec fn known_drives(devices: Seq<Seq<char>>, stats: Map<Seq<char>, (u64, u64)>) -> Seq<
    Seq<char>,
>
    decreases devices.len(),
{
    if devices.len() == 0 {
        Seq::empty()
    } else if stats.contains_key(devices[0]) {
        seq![devices[0]] + known_drives(devices.drop_first(), stats)
    } else {
        known_drives(devices.drop_first(), stats)
    }
}

/// The drives of a sequence of samples, in order.
pub open spec fn sample_devices(r: Seq<SampleView>) -> Seq<Seq<char>> {
    r.map_values(|x: SampleView| x.device)
}

/// The first `MAX_DISKS` elements of `s` (all of `s` when it is shorter).
pub open spec fn first_disks(s: Seq<Seq<char>>) -> Seq<Seq<char>> {
    if s.len() <= MAX_DISKS {
        s
    } else {
        s.take(MAX_DISKS as int)
    }
}

/// An update continued after samples `out` samples next the drives that
/// `stats` knows, in order, until `MAX_DISKS` samples are taken.
proof fn samples_first_known_drives_from(
    prev: Map<Seq<char>, (u64, u64)>,
    display: Map<Seq<char>, Seq<char>>,
    devices: Seq<Seq<char>>,
    stats: Map<Seq<char>, (u64, u64)>,
    models: Map<Seq<char>, Seq<char>>,
    out: Seq<SampleView>,
)
    requires
        out.len() <= MAX_DISKS,
    ensures
        sample_devices(disk_run(prev, display, devices, stats, models, out).2) == first_disks(
            sample_devices(out) + known_drives(devices, stats),
        ),
    decreases devices.len(),
{
    let f = sample_devices(out) + known_drives(devices, stats);
    if devices.len() == 0 {
        assert(f =~= sample_devices(out));
    } else if out.len() >= MAX_DISKS {
        assert(f.take(MAX_DISKS as int) =~= sample_devices(out));
    } else if stats.contains_key(devices[0]) {
        let (p2, d2, smp) = disk_step(prev, display, devices[0], stats[devices[0]], models);
        samples_first_known_drives_from(p2, d2, devices.drop_first(), stats, models, out.push(smp));
        assert(sample_devices(out.push(smp)) + known_drives(devices.drop_first(), stats) =~= f);
    } else {
        assert(disk_run(prev, display, devices, stats, models, out) == disk_run(
            prev,
            display,
            devices.drop_first(),
            stats,
            models,
            out,
        ));
        samples_first_known_drives_from(prev, display, devices.drop_first(), stats, models, out);
        assert(sample_devices(out) + known_drives(devices.drop_first(), stats) =~= f);
    }
}

/// An update samples exactly the first `MAX_DISKS` of the monitor's drives
/// that the current counters know, in the monitor's order: a drive missing
/// from `/proc/diskstats` is skipped and never keeps later drives from being
/// sampled.
pub proof fn lemma_update_samples_first_known_drives(
    prev: Map<Seq<char>, (u64, u64)>,
    display: Map<Seq<char>, Seq<char>>,
    devices: Seq<Seq<char>>,
    stats: Map<Seq<char>, (u64, u64)>,
    models: Map<Seq<char>, Seq<char>>,
)
    ensures
        sample_devices(disk_run(prev, display, devices, stats, models, Seq::empty()).2)
            == first_disks(known_drives(devices, stats)),
{
    samples_first_known_drives_from(prev, display, devices, stats, models, Seq::empty());
    assert(sample_devices(Seq::<SampleView>::empty()) + known_drives(devices, stats)
        =~= known_drives(devices, stats));
}

} // verus!
