//! GPU sampling: the Intel xe idle-residency counter, the VRAM that DRM
//! clients report in `/proc/<pid>/fdinfo`, and the output of `nvidia-smi`.
use crate::text::{
    all_digits, all_digits_chars, chars_of, concat3, decimal, decimal_chars, find_char,
    first_index_of, lemma_first_index_of, lines, parse_u64, parse_u64_chars, same_chars,
    split_lines, split_words, starts_with, starts_with_chars, string_of, strip_prefix,
    strip_prefix_chars, trim, trim_chars, words,
};
use vstd::prelude::*;

verus! {

// ───────────────────────────── DRM memory sizes ─────────────────────────────

/// The factor of a DRM memory unit (`"KiB"`, `"MiB"`, `"GiB"`; anything else
/// is a plain byte count).
pub open spec fn unit_factor(unit: Seq<char>) -> int {
    if unit == "GiB"@ {
        1073741824
    } else if unit == "MiB"@ {
        1048576
    } else if unit == "KiB"@ {
        1024
    } else {
        1
    }
}

/// The byte count that a DRM memory field such as `"1234 KiB"`, `"5 MiB"`,
/// `"2 GiB"` or `"4096"` stands for: its first word as a number (zero if it
/// is none), times the factor of its second word.
pub open spec fn drm_memory(s: Seq<char>) -> int {
    let w = words(s);
    let value: int = if w.len() > 0 && parse_u64(w[0]) is Some {
        parse_u64(w[0])->0 as int
    } else {
        0
    };
    let unit = if w.len() > 1 {
        w[1]
    } else {
        Seq::<char>::empty()
    };
    value * unit_factor(unit)
}

/// The byte count of a DRM memory field, or `None` when it does not fit in
/// a `u64`.
pub fn drm_memory_bytes(s: &str) -> (r: Option<u64>)
    ensures
        r == if drm_memory(s@) <= u64::MAX {
            Some(drm_memory(s@) as u64)
        } else {
            None
        },
{
    let cs = chars_of(s);
    let w = split_words(&cs);
    let value: u64 = if w.len() > 0 {
        assert(w[0]@ =~= w.deep_view()[0]);
        match parse_u64_chars(&w[0]) {
            Some(v) => v,
            None => 0,
        }
    } else {
        0
    };
    let factor: u64 = if w.len() > 1 {
        assert(w[1]@ =~= w.deep_view()[1]);
        if same_chars(&w[1], &chars_of("GiB")) {
            1073741824
        } else if same_chars(&w[1], &chars_of("MiB")) {
            1024 * 1024
        } else if same_chars(&w[1], &chars_of("KiB")) {
            1024
        } else {
            1
        }
    } else {
        assert(Seq::<char>::empty() != "GiB"@) by {
            reveal_strlit("GiB");
            assert("GiB"@.len() == 3);
        }
        assert(Seq::<char>::empty() != "MiB"@) by {
            reveal_strlit("MiB");
            assert("MiB"@.len() == 3);
        }
        assert(Seq::<char>::empty() != "KiB"@) by {
            reveal_strlit("KiB");
            assert("KiB"@.len() == 3);
        }
        1
    };
    assert(factor == unit_factor(if w.len() > 1 { w.deep_view()[1] } else { Seq::<char>::empty() }));
    value.checked_mul(factor)
}

/// Parses a DRM memory field value such as `"1234 KiB"`, `"5 MiB"`,
/// `"2 GiB"` or a bare byte count.
pub fn parse_drm_memory(s: &str) -> (r: u64)
    requires
        drm_memory(s@) <= u64::MAX,
    ensures
        r == drm_memory(s@),
{
    drm_memory_bytes(s).unwrap()
}

// ───────────────────────────── fdinfo ─────────────────────────────

/// What one `/proc/<pid>/fdinfo/<fd>` entry of a DRM client says.
pub struct FdInfo {
    /// The `drm-client-id` field, if present and a number.
    pub client_id: Option<u64>,
    /// The `drm-total-vram0` field in bytes (zero if absent).
    pub vram_bytes: u64,
}

/// The field prefix that names the DRM client.
pub open spec fn client_id_key() -> Seq<char> {
    "drm-client-id:\t"@
}

/// The field prefix that gives the client's VRAM.
pub open spec fn vram_key() -> Seq<char> {
    "drm-total-vram0:\t"@
}

/// One line of an fdinfo entry applied to `(client id, VRAM bytes)` read so
/// far; a later field replaces an earlier one. `None` when a VRAM size does
/// not fit in a `u64`.
pub open spec fn fdinfo_step(acc: (Option<u64>, u64), l: Seq<char>) -> Option<(Option<u64>, u64)> {
    match strip_prefix(l, client_id_key()) {
        Some(v) => Some((parse_u64(trim(v)), acc.1)),
        None => match strip_prefix(l, vram_key()) {
            Some(v) => if drm_memory(v) <= u64::MAX {
                Some((acc.0, drm_memory(v) as u64))
            } else {
                None
            },
            None => Some(acc),
        },
    }
}

/// The `(client id, VRAM bytes)` of the fdinfo lines `ls`.
pub open spec fn fdinfo_scan(ls: Seq<Seq<char>>) -> Option<(Option<u64>, u64)>
    decreases ls.len(),
{
    if ls.len() == 0 {
        Some((None, 0))
    } else {
        match fdinfo_scan(ls.drop_last()) {
            Some(acc) => fdinfo_step(acc, ls.last()),
            None => None,
        }
    }
}

/// Reads the client id and the VRAM size from the text of an fdinfo entry.
/// `None` when a VRAM size does not fit in a `u64`.
pub fn parse_fdinfo(content: &str) -> (r: Option<FdInfo>)
    ensures
        match r {
            Some(info) => fdinfo_scan(lines(content@)) == Some((info.client_id, info.vram_bytes)),
            None => fdinfo_scan(lines(content@)) is None,
        },
{
    let cs = chars_of(content);
    let ls = split_lines(&cs);
    let ghost all = ls.deep_view();
    let id_key = chars_of("drm-client-id:\t");
    let vram_key_chars = chars_of("drm-total-vram0:\t");
    let mut client_id: Option<u64> = None;
    let mut vram_bytes: u64 = 0;
    let mut i: usize = 0;
    assert(all.take(0) =~= Seq::<Seq<char>>::empty());
    while i < ls.len()
        invariant
            i <= ls.len(),
            all == ls.deep_view(),
            all == lines(content@),
            id_key@ == client_id_key(),
            vram_key_chars@ == vram_key(),
            fdinfo_scan(all.take(i as int)) == Some((client_id, vram_bytes)),
        decreases ls.len() - i,
    {
        let line = &ls[i];
        assert(line@ =~= all[i as int]);
        assert(all.take(i + 1).drop_last() =~= all.take(i as int));
        assert(all.take(i + 1).last() == all[i as int]);
        match strip_prefix_chars(line, &id_key) {
            Some(v) => {
                assert(v.deep_view() =~= v@);
                let t = trim_chars(&v);
                client_id = parse_u64_chars(&t);
            },
            None => {
                match strip_prefix_chars(line, &vram_key_chars) {
                    Some(v) => {
                        assert(v.deep_view() =~= v@);
                        let text = string_of(&v);
                        match drm_memory_bytes(text.as_str()) {
                            Some(b) => {
                                vram_bytes = b;
                            },
                            None => {
                                assert(fdinfo_scan(all.take(i + 1)) is None);
                                assert(fdinfo_scan(all) is None) by {
                                    lemma_fdinfo_scan_stays_none(all, i + 1);
                                }
                                return None;
                            },
                        }
                    },
                    None => {},
                }
            },
        }
        i += 1;
    }
    assert(all.take(ls.len() as int) =~= all);
    Some(FdInfo { client_id, vram_bytes })
}

/// The text after prefix `p` on the last of the lines `ls` that starts with
/// `p`.
pub open spec fn last_field(ls: Seq<Seq<char>>, p: Seq<char>) -> Option<Seq<char>>
    decreases ls.len(),
{
    if ls.len() == 0 {
        None
    } else if starts_with(ls.last(), p) {
        Some(ls.last().subrange(p.len() as int, ls.last().len() as int))
    } else {
        last_field(ls.drop_last(), p)
    }
}

/// No line starts with both field names.
pub proof fn lemma_fdinfo_keys_exclusive(l: Seq<char>)
    ensures
        !(starts_with(l, "drm-client-id:\t"@) && starts_with(l, "drm-total-vram0:\t"@)),
{
    reveal_strlit("drm-client-id:\t");
    reveal_strlit("drm-total-vram0:\t");
    if starts_with(l, "drm-client-id:\t"@) && starts_with(l, "drm-total-vram0:\t"@) {
        assert(l.subrange(0, "drm-client-id:\t"@.len() as int)[4] == 'c');
        assert(l.subrange(0, "drm-total-vram0:\t"@.len() as int)[4] == 't');
        assert(l.subrange(0, "drm-client-id:\t"@.len() as int)[4] == l[4]);
        assert(l.subrange(0, "drm-total-vram0:\t"@.len() as int)[4] == l[4]);
    }
}

/// Lines that are neither the client id nor the total VRAM (other DRM fields
/// such as `drm-shared-vram0`, `drm-total-gtt`, `pos`, `flags`) leave what
/// an fdinfo entry says unchanged.
pub proof fn lemma_fdinfo_other_lines_ignored(acc: (Option<u64>, u64), l: Seq<char>)
    requires
        !starts_with(l, "drm-client-id:\t"@),
        !starts_with(l, "drm-total-vram0:\t"@),
    ensures
        fdinfo_step(acc, l) == Some(acc),
{
}

/// What an fdinfo entry says, by its fields: the VRAM is the DRM size on the
/// last line that starts with `"drm-total-vram0:\t"` (zero when there is
/// none), the client is the number on the last line that starts with
/// `"drm-client-id:\t"` (none when there is none or it is not a number), and
/// the entry is rejected exactly when some VRAM size does not fit in a `u64`.
pub proof fn lemma_fdinfo_fields(ls: Seq<Seq<char>>)
    ensures
        fdinfo_scan(ls) is None <==> exists|k: int|
            0 <= k < ls.len() && starts_with(#[trigger] ls[k], "drm-total-vram0:\t"@) && drm_memory(
                ls[k].subrange("drm-total-vram0:\t"@.len() as int, ls[k].len() as int),
            ) > u64::MAX,
        fdinfo_scan(ls) is Some ==> (fdinfo_scan(ls)->0).1 == match last_field(
            ls,
            "drm-total-vram0:\t"@,
        ) {
            Some(r) => drm_memory(r) as u64,
            None => 0,
        },
        fdinfo_scan(ls) is Some ==> (fdinfo_scan(ls)->0).0 == match last_field(
            ls,
            "drm-client-id:\t"@,
        ) {
            Some(r) => parse_u64(trim(r)),
            None => None,
        },
    decreases ls.len(),
{
    let vk = "drm-total-vram0:\t"@;
    if ls.len() > 0 {
        let init = ls.drop_last();
        let l = ls.last();
        lemma_fdinfo_fields(init);
        lemma_fdinfo_keys_exclusive(l);
        assert forall|k: int| 0 <= k < init.len() implies init[k] == ls[k] by {}
        if fdinfo_scan(init) is None {
            let k = choose|k: int|
                0 <= k < init.len() && starts_with(#[trigger] init[k], vk) && drm_memory(
                    init[k].subrange(vk.len() as int, init[k].len() as int),
                ) > u64::MAX;
            assert(init[k] == ls[k]);
        } else {
            if exists|k: int|
                0 <= k < ls.len() && starts_with(#[trigger] ls[k], vk) && drm_memory(
                    ls[k].subrange(vk.len() as int, ls[k].len() as int),
                ) > u64::MAX {
                let k = choose|k: int|
                    0 <= k < ls.len() && starts_with(#[trigger] ls[k], vk) && drm_memory(
                        ls[k].subrange(vk.len() as int, ls[k].len() as int),
                    ) > u64::MAX;
                if k < ls.len() - 1 {
                    assert(init[k] == ls[k]);
                    assert(starts_with(init[k], vk));
                } else {
                    assert(ls[k] == l);
                }
            }
        }
    } else {
        assert(fdinfo_scan(ls) == Some((None::<u64>, 0u64)));
    }
}

/// Once a VRAM size has overflowed, the whole entry is rejected.
pub proof fn lemma_fdinfo_scan_stays_none(ls: Seq<Seq<char>>, k: int)
    requires
        0 <= k <= ls.len(),
        fdinfo_scan(ls.take(k)) is None,
    ensures
        fdinfo_scan(ls) is None,
    decreases ls.len() - k,
{
    if k < ls.len() {
        assert(ls.take(k + 1).drop_last() =~= ls.take(k));
        lemma_fdinfo_scan_stays_none(ls, k + 1);
    } else {
        assert(ls.take(k) =~= ls);
    }
}

// ───────────────────────────── VRAM tally ─────────────────────────────

/// The tally after one fdinfo entry: a client is counted with the VRAM of
/// the first entry seen for it; entries without a client id are ignored.
pub open spec fn tally_record(s: Seq<(u64, u64)>, info: (Option<u64>, u64)) -> Seq<(u64, u64)> {
    match info.0 {
        Some(id) => if exists|i: int| 0 <= i < s.len() && (#[trigger] s[i]).0 == id {
            s
        } else {
            s.push((id, info.1))
        },
        None => s,
    }
}

/// The VRAM of all clients of a tally, in bytes.
pub open spec fn tally_total(s: Seq<(u64, u64)>) -> int
    decreases s.len(),
{
    if s.len() == 0 {
        0
    } else {
        tally_total(s.drop_last()) + s.last().1
    }
}

/// No client appears twice in a tally.
pub open spec fn clients_distinct(s: Seq<(u64, u64)>) -> bool {
    forall|i: int, j: int| 0 <= i < j < s.len() ==> s[i].0 != s[j].0
}

/// The VRAM of the DRM clients of one render device, each client counted
/// once however many file descriptors it holds.
pub struct VramTally {
    seen: Vec<(u64, u64)>,
}

impl View for VramTally {
    /// The clients seen, in order, each with its VRAM in bytes.
    type V = Seq<(u64, u64)>;

    closed spec fn view(&self) -> Seq<(u64, u64)> {
        self.seen@
    }
}

impl VramTally {
    /// A tally of no client.
    pub fn new() -> (t: Self)
        ensures
            t@ == Seq::<(u64, u64)>::empty(),
    {
        VramTally { seen: Vec::new() }
    }

    /// Counts the client of one fdinfo entry, unless it is counted already.
    pub fn record(&mut self, info: &FdInfo)
        ensures
            final(self)@ == tally_record(old(self)@, (info.client_id, info.vram_bytes)),
    {
        match info.client_id {
            None => {},
            Some(id) => {
                let mut i: usize = 0;
                while i < self.seen.len()
                    invariant
                        i <= self.seen.len(),
                        self.seen@ == old(self).seen@,
                        info.client_id == Some(id),
                        forall|j: int| 0 <= j < i ==> self.seen@[j].0 != id,
                    decreases self.seen.len() - i,
                {
                    if self.seen[i].0 == id {
                        assert(old(self)@[i as int].0 == id);
                        return;
                    }
                    i += 1;
                }
                self.seen.push((id, info.vram_bytes));
            },
        }
    }

    /// The VRAM of all clients counted, or `None` when the sum does not fit
    /// in a `u64`.
    pub fn total_bytes(&self) -> (r: Option<u64>)
        ensures
            r == if tally_total(self@) <= u64::MAX {
                Some(tally_total(self@) as u64)
            } else {
                None
            },
    {
        let mut sum: u64 = 0;
        let mut i: usize = 0;
        assert(self.seen@.take(0) =~= Seq::<(u64, u64)>::empty());
        while i < self.seen.len()
            invariant
                i <= self.seen.len(),
                sum == tally_total(self.seen@.take(i as int)),
            decreases self.seen.len() - i,
        {
            assert(self.seen@.take(i + 1).drop_last() =~= self.seen@.take(i as int));
            match sum.checked_add(self.seen[i].1) {
                Some(s) => {
                    sum = s;
                },
                None => {
                    proof {
                        lemma_tally_prefix_le(self.seen@, i + 1);
                    }
                    return None;
                },
            }
            i += 1;
        }
        assert(self.seen@.take(self.seen.len() as int) =~= self.seen@);
        Some(sum)
    }
}

/// The VRAM of the first clients of a tally is no more than the total.
pub proof fn lemma_tally_prefix_le(s: Seq<(u64, u64)>, k: int)
    requires
        0 <= k <= s.len(),
    ensures
        tally_total(s.take(k)) <= tally_total(s),
    decreases s.len(),
{
    if k < s.len() {
        assert(s.drop_last().take(k) =~= s.take(k));
        lemma_tally_prefix_le(s.drop_last(), k);
    } else {
        assert(s.take(k) =~= s);
    }
}

/// A client is counted once, with the VRAM of its first entry: recording
/// another entry of a client already counted changes nothing.
pub proof fn lemma_client_counted_once(s: Seq<(u64, u64)>, id: u64, first: u64, later: u64)
    ensures
        tally_record(tally_record(s, (Some(id), first)), (Some(id), later)) == tally_record(
            s,
            (Some(id), first),
        ),
{
    let t = tally_record(s, (Some(id), first));
    if !(exists|i: int| 0 <= i < s.len() && (#[trigger] s[i]).0 == id) {
        assert(t[s.len() as int].0 == id);
    }
}

/// Recording keeps the clients of a tally distinct.
pub proof fn lemma_record_keeps_clients_distinct(s: Seq<(u64, u64)>, info: (Option<u64>, u64))
    requires
        clients_distinct(s),
    ensures
        clients_distinct(tally_record(s, info)),
{
}

/// Recording a new client adds its VRAM to the total; anything else leaves
/// the total unchanged.
pub proof fn lemma_record_total(s: Seq<(u64, u64)>, info: (Option<u64>, u64))
    ensures
        tally_total(tally_record(s, info)) == if tally_record(s, info) == s {
            tally_total(s)
        } else {
            tally_total(s) + info.1
        },
{
    let t = tally_record(s, info);
    if t != s {
        assert(t.drop_last() =~= s);
    }
}

/// The tally after recording the entries `infos`, in order, from an empty one.
pub open spec fn tally_replay(infos: Seq<(Option<u64>, u64)>) -> Seq<(u64, u64)>
    decreases infos.len(),
{
    if infos.len() == 0 {
        Seq::empty()
    } else {
        tally_record(tally_replay(infos.drop_last()), infos.last())
    }
}

/// Some entry of `infos` belongs to client `id`.
pub open spec fn has_client(infos: Seq<(Option<u64>, u64)>, id: u64) -> bool {
    exists|k: int| 0 <= k < infos.len() && (#[trigger] infos[k]).0 == Some(id)
}

/// The tally counts client `id`.
pub open spec fn in_tally(t: Seq<(u64, u64)>, id: u64) -> bool {
    exists|i: int| 0 <= i < t.len() && (#[trigger] t[i]).0 == id
}

/// The VRAM of the first entry of client `id` among `infos`.
pub open spec fn first_vram(infos: Seq<(Option<u64>, u64)>, id: u64) -> u64
    decreases infos.len(),
{
    if infos.len() == 0 {
        0
    } else if has_client(infos.drop_last(), id) {
        first_vram(infos.drop_last(), id)
    } else {
        infos.last().1
    }
}

/// After any sequence of entries recorded from an empty tally, the tally
/// lists each client that has an entry exactly once, with the VRAM of that
/// client's first entry; its total (`tally_total`, what `total_bytes`
/// gives) is therefore the sum, over the distinct clients, of the VRAM of
/// each one's first entry.
pub proof fn lemma_tally_counts_first_entries(infos: Seq<(Option<u64>, u64)>)
    ensures
        clients_distinct(tally_replay(infos)),
        forall|id: u64| #[trigger] in_tally(tally_replay(infos), id) <==> has_client(infos, id),
        forall|i: int|
            0 <= i < tally_replay(infos).len() ==> (#[trigger] tally_replay(infos)[i]).1
                == first_vram(infos, tally_replay(infos)[i].0),
    decreases infos.len(),
{
    if infos.len() > 0 {
        let init = infos.drop_last();
        let last = infos.last();
        lemma_tally_counts_first_entries(init);
        let t0 = tally_replay(init);
        let t = tally_replay(infos);
        assert(t == tally_record(t0, last));
        lemma_record_keeps_clients_distinct(t0, last);
        assert forall|id: u64| has_client(init, id) implies has_client(infos, id) by {
            let k = choose|k: int| 0 <= k < init.len() && (#[trigger] init[k]).0 == Some(id);
            assert(infos[k] == init[k]);
        }
        assert forall|id: u64| has_client(infos, id) && !has_client(init, id) implies last.0
            == Some(id) by {
            let k = choose|k: int| 0 <= k < infos.len() && (#[trigger] infos[k]).0 == Some(id);
            if k < infos.len() - 1 {
                assert(init[k] == infos[k]);
            }
        }
        match last.0 {
            Some(id) => {
                if in_tally(t0, id) {
                    assert(t == t0);
                } else {
                    assert(t == t0.push((id, last.1)));
                    assert(!has_client(init, id));
                    assert forall|x: u64| #[trigger] in_tally(t, x) <==> has_client(infos, x) by {
                        if x == id {
                            assert(t[t0.len() as int].0 == id);
                            assert(infos[infos.len() - 1].0 == Some(id));
                        } else {
                            if in_tally(t, x) {
                                let i = choose|i: int| 0 <= i < t.len() && (#[trigger] t[i]).0
                                    == x;
                                assert(t0[i] == t[i]);
                                assert(in_tally(t0, x));
                            }
                            if in_tally(t0, x) {
                                let i = choose|i: int| 0 <= i < t0.len() && (#[trigger] t0[i]).0
                                    == x;
                                assert(t[i] == t0[i]);
                                assert(in_tally(t, x));
                            }
                            assert(in_tally(t0, x) <==> has_client(init, x));
                            assert(has_client(infos, x) <==> has_client(init, x));
                        }
                    }
                    assert forall|i: int| 0 <= i < t.len() implies (#[trigger] t[i]).1
                        == first_vram(infos, t[i].0) by {
                        if i < t0.len() {
                            assert(t[i] == t0[i]);
                            assert(in_tally(t0, t0[i].0));
                        }
                    }
                }
            },
            None => {
                assert(t == t0);
            },
        }
        assert forall|i: int| 0 <= i < t.len() implies (#[trigger] t[i]).1 == first_vram(
            infos,
            t[i].0,
        ) by {
            if i < t0.len() && t[i] == t0[i] {
                assert(in_tally(t0, t0[i].0));
            }
        }
    }
}

// ───────────────────────────── processes and devices ─────────────────────────────

/// Whether a `/proc` entry names a process: its name is all ASCII digits.
pub fn is_pid_name(name: &str) -> (r: bool)
    ensures
        r == all_digits(name@),
{
    all_digits_chars(&chars_of(name))
}

/// The first of `names` that starts with `"render"`.
pub open spec fn first_render_node(names: Seq<Seq<char>>) -> Option<Seq<char>>
    decreases names.len(),
{
    if names.len() == 0 {
        None
    } else if starts_with(names[0], "render"@) {
        Some(names[0])
    } else {
        first_render_node(names.drop_first())
    }
}

/// The render node to watch among the entries `names` of a card's `drm`
/// directory: the first whose name starts with `"render"`, else `"renderD128"`.
pub open spec fn render_device_name(names: Seq<Seq<char>>) -> Seq<char> {
    match first_render_node(names) {
        Some(n) => n,
        None => "renderD128"@,
    }
}

/// The render node among the entries `names` of a card's `drm` directory.
pub fn render_device(names: &Vec<String>) -> (r: String)
    ensures
        r@ == render_device_name(names@.map_values(|n: String| n@)),
{
    let ghost all = names@.map_values(|n: String| n@);
    let prefix = chars_of("render");
    let mut i: usize = 0;
    assert(all.subrange(0, all.len() as int) =~= all);
    while i < names.len()
        invariant
            i <= names.len(),
            all == names@.map_values(|n: String| n@),
            prefix@ == "render"@,
            first_render_node(all) == first_render_node(all.subrange(i as int, all.len() as int)),
        decreases names.len() - i,
    {
        let ghost rest = all.subrange(i as int, all.len() as int);
        assert(rest[0] == names[i as int]@);
        assert(rest.drop_first() =~= all.subrange(i + 1, all.len() as int));
        if starts_with_chars(&chars_of(names[i].as_str()), &prefix) {
            return names[i].clone();
        }
        i += 1;
    }
    let r = String::from_str("renderD128");
    r
}

/// The number in a sysfs counter file: its text, trimmed, as a `u64`.
pub fn parse_counter(s: &str) -> (r: Option<u64>)
    ensures
        r == parse_u64(trim(s@)),
{
    let cs = chars_of(s);
    parse_u64_chars(&trim_chars(&cs))
}

// ───────────────────────────── sysfs and procfs paths ─────────────────────────────

/// Intel cards are looked for at DRM card indices below this bound.
pub const MAX_DRM_CARDS: u32 = 8;

/// The card whose Intel xe counters are read: the first card index below
/// `MAX_DRM_CARDS` whose idle-residency counter exists, where `present[i]`
/// tells whether card `i`'s counter file exists. `None` when there is none,
/// and then NVIDIA is tried.
pub fn first_intel_card(present: &Vec<bool>) -> (r: Option<u32>)
    ensures
        match r {
            Some(c) => c < MAX_DRM_CARDS && c < present.len() && present@[c as int] && forall|
                j: int,
            | 0 <= j < c ==> !present@[j],
            None => forall|j: int| 0 <= j < present.len() && j < MAX_DRM_CARDS ==> !present@[j],
        },
{
    let mut i: u32 = 0;
    while i < MAX_DRM_CARDS && (i as usize) < present.len()
        invariant
            i <= MAX_DRM_CARDS,
            forall|j: int| 0 <= j < i && j < present.len() ==> !present@[j],
        decreases MAX_DRM_CARDS - i,
    {
        if present[i as usize] {
            return Some(i);
        }
        i += 1;
    }
    None
}

/// The idle-residency counter of card `card` under the xe driver.
pub open spec fn idle_residency_file(card: u32) -> Seq<char> {
    "/sys/class/drm/card"@ + decimal(card as nat) + "/device/tile0/gt0/gtidle/idle_residency_ms"@
}

/// The path of the idle-residency counter of card `card`.
pub fn idle_residency_path(card: u32) -> (r: String)
    ensures
        r@ == idle_residency_file(card),
        r@ == "/sys/class/drm/card"@ + decimal(card as nat)
            + "/device/tile0/gt0/gtidle/idle_residency_ms"@,
{
    concat3(
        "/sys/class/drm/card",
        &decimal_chars(card as u64),
        "/device/tile0/gt0/gtidle/idle_residency_ms",
    )
}

/// The directory that lists the DRM nodes of card `card`.
pub fn card_drm_dir(card: u32) -> (r: String)
    ensures
        r@ == "/sys/class/drm/card"@ + decimal(card as nat) + "/device/drm"@,
{
    concat3("/sys/class/drm/card", &decimal_chars(card as u64), "/device/drm")
}

/// The device file of render node `render`.
pub fn dri_device_path(render: &String) -> (r: String)
    ensures
        r@ == "/dev/dri/"@ + render@,
{
    let r = concat3("/dev/dri/", &chars_of(render.as_str()), "");
    proof {
        reveal_strlit("");
    }
    assert(r@ =~= "/dev/dri/"@ + render@);
    r
}

/// The directory of the open file descriptors of process `pid`.
pub fn fd_dir_path(pid: &String) -> (r: String)
    ensures
        r@ == "/proc/"@ + pid@ + "/fd"@,
{
    concat3("/proc/", &chars_of(pid.as_str()), "/fd")
}

/// The fdinfo entry of file descriptor `fd` of process `pid`.
pub fn fdinfo_path(pid: &String, fd: &String) -> (r: String)
    ensures
        r@ == "/proc/"@ + pid@ + "/fdinfo/"@ + fd@,
{
    let a = concat3("/proc/", &chars_of(pid.as_str()), "/fdinfo/");
    let r = concat3(a.as_str(), &chars_of(fd.as_str()), "");
    proof {
        reveal_strlit("");
    }
    assert(r@ =~= "/proc/"@ + pid@ + "/fdinfo/"@ + fd@);
    r
}

// ───────────────────────────── Intel xe utilisation ─────────────────────────────

/// The state kept between two samples of an Intel xe GPU: the idle-residency
/// counter at the previous sample, and whether there was one.
pub struct IntelXeCounter {
    pub last_idle_ms: u64,
    pub first: bool,
}

/// What one sample does: the new state, and the idle time since the previous
/// sample, `None` when utilisation is taken as zero (on the first sample, or
/// when no time has passed).
pub open spec fn xe_advance(last: u64, first: bool, current_idle_ms: u64, elapsed_ms: u64) -> (
    (u64, bool),
    Option<u64>,
) {
    if first || elapsed_ms == 0 {
        ((current_idle_ms, false), None)
    } else {
        (
            (current_idle_ms, false),
            Some(
                (if current_idle_ms >= last {
                    current_idle_ms - last
                } else {
                    0
                }) as u64,
            ),
        )
    }
}

impl IntelXeCounter {
    /// The state before the first sample, with the counter's initial value.
    pub fn new(initial_idle_ms: u64) -> (c: Self)
        ensures
            c.last_idle_ms == initial_idle_ms,
            c.first,
    {
        IntelXeCounter { last_idle_ms: initial_idle_ms, first: true }
    }

    /// Takes a sample of the idle counter, `elapsed_ms` after the previous
    /// one. Returns the idle time in between, from which utilisation is
    /// `1 - idle / elapsed` clamped to `[0, 1]`; `None` means zero utilisation.
    pub fn advance(&mut self, current_idle_ms: u64, elapsed_ms: u64) -> (idle_ms: Option<u64>)
        ensures
            ((final(self).last_idle_ms, final(self).first), idle_ms) == xe_advance(
                old(self).last_idle_ms,
                old(self).first,
                current_idle_ms,
                elapsed_ms,
            ),
    {
        let r = if self.first || elapsed_ms == 0 {
            self.first = false;
            None
        } else {
            Some(current_idle_ms.saturating_sub(self.last_idle_ms))
        };
        self.last_idle_ms = current_idle_ms;
        r
    }
}

/// After any sample the next one measures from it: whatever came before,
/// a sample taken after some time has passed reports the idle time since the
/// previous sample (zero when the counter went backwards), and the counter
/// just read becomes the baseline for the one after.
pub proof fn lemma_xe_measures_from_last_sample(
    last: u64,
    first: bool,
    current_idle_ms: u64,
    elapsed_ms: u64,
    next_idle_ms: u64,
    next_elapsed_ms: u64,
)
    requires
        next_elapsed_ms > 0,
    ensures
        ({
            let (st, _) = xe_advance(last, first, current_idle_ms, elapsed_ms);
            let (st2, r) = xe_advance(st.0, st.1, next_idle_ms, next_elapsed_ms);
            &&& r == Some(
                (if next_idle_ms >= current_idle_ms {
                    next_idle_ms - current_idle_ms
                } else {
                    0
                }) as u64,
            )
            &&& st2 == (next_idle_ms, false)
        }),
{
}

// ───────────────────────────── nvidia-smi ─────────────────────────────

/// The two fields of the first line of `nvidia-smi`'s CSV output
/// (`"45, 4096"`): the text before the first comma and the text after it,
/// each trimmed. `None` when there is no line or no comma.
pub open spec fn nvidia_fields(out: Seq<char>) -> Option<(Seq<char>, Seq<char>)> {
    let ls = lines(out);
    if ls.len() == 0 {
        None
    } else {
        let l = ls[0];
        let k = first_index_of(l, ',');
        if k < l.len() {
            Some((trim(l.subrange(0, k as int)), trim(l.subrange(k as int + 1, l.len() as int))))
        } else {
            None
        }
    }
}

/// Splits the output of `nvidia-smi --query-gpu=utilization.gpu,memory.used
/// --format=csv,noheader,nounits` into its utilisation and memory fields.
pub fn split_nvidia_output(out: &str) -> (r: Option<(String, String)>)
    ensures
        match r {
            Some((a, b)) => nvidia_fields(out@) == Some((a@, b@)),
            None => nvidia_fields(out@) is None,
        },
{
    let cs = chars_of(out);
    let ls = split_lines(&cs);
    if ls.len() == 0 {
        return None;
    }
    let l = &ls[0];
    assert(l@ =~= ls.deep_view()[0]);
    let k = find_char(l, ',');
    proof {
        lemma_first_index_of(l@, ',');
    }
    if k < l.len() {
        let a = trim_chars(&crate::text::copy_range(l, 0, k));
        let b = trim_chars(&crate::text::copy_range(l, k + 1, l.len()));
        Some((string_of(&a), string_of(&b)))
    } else {
        None
    }
}

} // verus!
