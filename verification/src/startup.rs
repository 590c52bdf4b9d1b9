//! What is set up before the nodes of a run start.

use vstd::prelude::*;
use crate::args::Options;

verus! {

/// The pattern of the timecode that a new snapshot is named by: the date and the time of day, as in
/// `2022-11-08-11:46:09`.
pub open spec fn timecode_pattern() -> Seq<char> {
    "%Y-%m-%d-%T"@
}

/// The text of a moment, in seconds since the start of 1970, as `chrono` formats it in UTC by a
/// pattern; nothing for a moment that `chrono` has no date for.
pub uninterp spec fn utc_text(secs: i64, pattern: Seq<char>) -> Option<Seq<char>>;

/// Formats a moment, with `chrono::DateTime::from_timestamp` and `chrono::DateTime::format`: the
/// text depends on the moment and the pattern alone, and there is none for a moment too far away.
/// Only the pattern of timecodes is handed over, since a pattern that makes no sense would panic.
/// By that pattern a text has at least nineteen characters: four or more of the year, two each of
/// the month, the day, the hour, the minute and the second, and five between them.
#[verifier::external_body]
fn format_utc(secs: i64, pattern: &str) -> (text: Option<String>)
    requires
        pattern@ == timecode_pattern(),
    ensures
        text is Some == utc_text(secs, pattern@) is Some,
        text is Some ==> text->0@ == utc_text(secs, pattern@)->0,
        text is Some ==> text->0@.len() >= 19,
{
    match chrono::DateTime::from_timestamp(secs, 0) {
        Some(time) => Some(time.format(pattern).to_string()),
        None => None,
    }
}

/// The path of `part` in a directory, with a slash between them unless the directory's path ends in
/// one. A part that starts at the root stays as it is, and so does one in the directory with the
/// empty path, the current one.
pub open spec fn in_dir(dir: Seq<char>, part: Seq<char>) -> Seq<char> {
    if dir.len() == 0 || part.len() > 0 && part[0] == '/' {
        part
    } else if dir.last() == '/' {
        dir + part
    } else {
        dir + "/"@ + part
    }
}

/// The path of `part` in a directory.
pub fn path_in(dir: &String, part: &String) -> (path: String)
    ensures
        path@ == in_dir(dir@, part@),
{
    let rooted: bool = match part.as_str().chars().next() {
        Some(c) => c == '/',
        None => false,
    };
    if dir.as_str().is_empty() || rooted {
        return part.clone();
    }
    let mut path: String = dir.clone();
    let length: usize = dir.as_str().unicode_len();
    if dir.as_str().get_char(length - 1) != '/' {
        path.append("/");
    }
    path.append(part.as_str());
    path
}

/// An entry of the directory that holds the snapshots.
#[derive(Debug)]
pub struct CacheEntry {
    pub path: String,
    /// When it was modified, in nanoseconds since the start of 1970.
    pub modified: i128,
}

/// Whether a snapshot is to be found among the entries: the one that was just made, or the last
/// one.
pub open spec fn is_newest_wanted(snapshot: Seq<char>) -> bool {
    snapshot == "new"@ || snapshot == "last"@
}

/// Whether `path` is that of the entry that was modified last.
pub open spec fn is_newest_path(path: Seq<char>, entries: Seq<CacheEntry>) -> bool {
    exists|i: int| #[trigger] is_newest(entries, i) && entries[i].path@ == path
}

/// The directory from which a run takes its keys.
#[derive(Debug)]
pub struct Snapshot {
    pub path: String,
    /// Whether the directory is to be made.
    pub is_new: bool,
}

impl Snapshot {
    /// Whether this is the directory from which a run at a moment takes its keys: a new one that is
    /// named by the timecode of the moment for the snapshot `new`, the newest one for `last`, and
    /// otherwise the one that is named. A timecode is too long to be one of these two words.
    pub open spec fn is_for(&self, opts: Options, entries: Seq<CacheEntry>, now: i64) -> bool {
        &&& self.is_new == (opts.snapshot@ == "new"@)
        &&& if opts.snapshot@ == "new"@ {
            utc_text(now, timecode_pattern()) matches Some(name) && {
                &&& name.len() >= 19
                &&& self.path@ == in_dir(opts.cache_dir@, name)
            }
        } else if opts.snapshot@ == "last"@ {
            is_newest_path(self.path@, entries)
        } else {
            self.path@ == in_dir(opts.cache_dir@, opts.snapshot@)
        }
    }
}

/// Finds the directory from which a run takes its keys. There is none if the snapshot is to be
/// named by a moment that has no date.
pub fn snapshot_dir(opts: &Options, entries: &Vec<CacheEntry>, now: i64) -> (dir: Option<Snapshot>)
    requires
        opts.snapshot@ == "last"@ ==> entries@.len() > 0,
    ensures
        dir is None <==> opts.snapshot@ == "new"@ && utc_text(now, timecode_pattern()) is None,
        dir matches Some(snapshot) ==> snapshot.is_for(*opts, entries@, now),
{
    proof {
        reveal_strlit("new");
        reveal_strlit("last");
        assert("new"@.len() != "last"@.len());
    }
    if opts.snapshot == "new".to_owned() {
        match format_utc(now, "%Y-%m-%d-%T") {
            Some(name) => Some(Snapshot { path: path_in(&opts.cache_dir, &name), is_new: true }),
            None => None,
        }
    } else if opts.snapshot == "last".to_owned() {
        let index: usize = newest(entries);
        Some(Snapshot { path: entries[index].path.clone(), is_new: false })
    } else {
        Some(Snapshot { path: path_in(&opts.cache_dir, &opts.snapshot), is_new: false })
    }
}

/// Whether `path` is that of a file that is kept with a snapshot: in the newest directory for a
/// snapshot that is `new`, and so was made just before, or `last`, and otherwise in the one that is
/// named.
pub open spec fn is_snapshot_file(
    path: Seq<char>,
    opts: Options,
    entries: Seq<CacheEntry>,
    file: Seq<char>,
) -> bool {
    if is_newest_wanted(opts.snapshot@) {
        exists|i: int| #[trigger]
            is_newest(entries, i) && path == in_dir(entries[i].path@, file)
    } else {
        path == in_dir(in_dir(opts.cache_dir@, opts.snapshot@), file)
    }
}

/// The path of a file that is kept with a snapshot.
pub fn get_snapshot_file(opts: &Options, entries: &Vec<CacheEntry>, file: &String) -> (path: String)
    requires
        is_newest_wanted(opts.snapshot@) ==> entries@.len() > 0,
    ensures
        is_snapshot_file(path@, *opts, entries@, file@),
{
    if opts.snapshot == "new".to_owned() || opts.snapshot == "last".to_owned() {
        let index: usize = newest(entries);
        path_in(&entries[index].path, file)
    } else {
        path_in(&path_in(&opts.cache_dir, &opts.snapshot), file)
    }
}

/// Whether the entry at an index was modified last. Of entries that were modified at the same time
/// it is the one that is listed last.
pub open spec fn is_newest(entries: Seq<CacheEntry>, index: int) -> bool {
    &&& 0 <= index < entries.len()
    &&& forall|i: int|
        0 <= i < entries.len() ==> (#[trigger] entries[i]).modified <= entries[index].modified
    &&& forall|i: int|
        index < i < entries.len() ==> (#[trigger] entries[i]).modified < entries[index].modified
}

/// Finds the entry that was modified last.
pub fn newest(entries: &Vec<CacheEntry>) -> (index: usize)
    requires
        entries@.len() > 0,
    ensures
        is_newest(entries@, index as int),
{
    let mut index: usize = 0;
    let mut i: usize = 1;
    while i < entries.len()
        invariant
            1 <= i <= entries@.len(),
            is_newest(entries@.take(i as int), index as int),
        decreases entries@.len() - i,
    {
        let ghost seen = entries@.take(i as int);
        let ghost now = entries@.take(i + 1);
        assert(forall|j: int| 0 <= j < i ==> #[trigger] now[j] == seen[j]);
        if entries[i].modified >= entries[index].modified {
            index = i;
        }
        i = i + 1;
    }
    assert(entries@.take(i as int) =~= entries@);
    index
}

/// A number in decimal digits.
pub open spec fn decimal(n: nat) -> Seq<char>
    decreases n,
{
    if n < 10 {
        seq![(48 + n) as char]
    } else {
        decimal(n / 10).push((48 + n % 10) as char)
    }
}

fn digit_text(digit: usize) -> (text: &'static str)
    requires
        digit < 10,
    ensures
        text@ == seq![(48 + digit) as char],
{
    proof {
        reveal_strlit("0");
        reveal_strlit("1");
        reveal_strlit("2");
        reveal_strlit("3");
        reveal_strlit("4");
        reveal_strlit("5");
        reveal_strlit("6");
        reveal_strlit("7");
        reveal_strlit("8");
        reveal_strlit("9");
    }
    let text: &'static str = match digit {
        0 => "0",
        1 => "1",
        2 => "2",
        3 => "3",
        4 => "4",
        5 => "5",
        6 => "6",
        7 => "7",
        8 => "8",
        _ => "9",
    };
    assert(text@ =~= seq![(48 + digit) as char]);
    text
}

/// A number in decimal digits.
pub fn decimal_text(n: usize) -> (text: String)
    ensures
        text@ == decimal(n as nat),
    decreases n,
{
    if n < 10 {
        return digit_text(n).to_owned();
    }
    let mut text: String = decimal_text(n / 10);
    let ghost front = text@;
    text.append(digit_text(n % 10));
    assert(text@ =~= front.push((48 + n % 10) as char));
    text
}

/// The name of the file with the key of a node.
pub open spec fn key_file(index: nat) -> Seq<char> {
    decimal(index) + ".pem"@
}

fn key_file_name(index: usize) -> (name: String)
    ensures
        name@ == key_file(index as nat),
{
    let mut name: String = decimal_text(index);
    name.append(".pem");
    name
}

/// How a node is started.
#[derive(Debug)]
pub struct ServerPlan {
    /// The address in its record, on which it listens.
    pub ip: String,
    /// The port in its record, on which it listens.
    pub port: u16,
    /// The file with its key.
    pub key_file: String,
    /// Whether its key is made and written to the file, and not read from it.
    pub generate_key: bool,
    pub request_retries: u8,
    pub request_timeout_secs: u64,
    pub query_timeout_secs: u64,
    pub max_nodes_per_ip: Option<usize>,
}

impl ServerPlan {
    /// Whether this is how the node at an index is started.
    pub open spec fn is_for(&self, opts: Options, index: int) -> bool {
        &&& self.ip@ == opts.ip_listen@
        &&& self.port == opts.port_udp + index
        &&& self.key_file@ == key_file(index as nat)
        &&& self.generate_key == (opts.snapshot@ == "new"@)
        &&& self.request_retries == 10
        &&& self.request_timeout_secs == opts.request_timeout
        &&& self.query_timeout_secs == 60
        &&& self.max_nodes_per_ip is None
    }
}

/// Plans the start of the nodes of a run, which listen on ports in a row.
pub fn construct_and_start(opts: &Options) -> (plans: Vec<ServerPlan>)
    requires
        opts.node_count > 0,
        opts.port_udp + opts.node_count <= 65536,
    ensures
        plans@.len() == opts.node_count,
        forall|i: int| 0 <= i < plans@.len() ==> (#[trigger] plans@[i]).is_for(*opts, i),
{
    let generate_key: bool = opts.snapshot == "new".to_owned();
    let mut plans: Vec<ServerPlan> = Vec::new();
    let mut i: usize = 0;
    while i < opts.node_count
        invariant
            i <= opts.node_count,
            opts.port_udp + opts.node_count <= 65536,
            generate_key == (opts.snapshot@ == "new"@),
            plans@.len() == i,
            forall|j: int| 0 <= j < i ==> (#[trigger] plans@[j]).is_for(*opts, j),
        decreases opts.node_count - i,
    {
        plans.push(
            ServerPlan {
                ip: opts.ip_listen.clone(),
                port: (opts.port_udp + i) as u16,
                key_file: key_file_name(i),
                generate_key,
                request_retries: 10,
                request_timeout_secs: opts.request_timeout,
                query_timeout_secs: 60,
                max_nodes_per_ip: None,
            },
        );
        i = i + 1;
    }
    plans
}

/// The port on which the libp2p service of a node listens.
pub fn libp2p_port(index: usize) -> (port: u16)
    requires
        4000 + index <= 65535,
    ensures
        port == 4000 + index,
{
    4000 + index as u16
}

/// The nodes listen on different ports, from the first one on.
pub proof fn lemma_ports_differ(plans: Seq<ServerPlan>, opts: Options)
    requires
        forall|i: int| 0 <= i < plans.len() ==> (#[trigger] plans[i]).is_for(opts, i),
    ensures
        forall|i: int, j: int|
            0 <= i < j < plans.len() ==> (#[trigger] plans[i]).port < (#[trigger] plans[j]).port,
        forall|i: int|
            0 <= i < plans.len() ==> opts.port_udp <= (#[trigger] plans[i]).port < opts.port_udp
                + plans.len(),
{
}

proof fn lemma_decimal_bound(n: nat)
    ensures
        decimal(n).len() > 0,
        n >= 10 ==> decimal(n).len() > 1,
    decreases n,
{
    if n >= 10 {
        lemma_decimal_bound(n / 10);
    }
}

proof fn lemma_decimal_injective(m: nat, n: nat)
    requires
        decimal(m) == decimal(n),
    ensures
        m == n,
    decreases m,
{
    lemma_decimal_bound(m);
    lemma_decimal_bound(n);
    let last_m = decimal(m).last();
    let last_n = decimal(n).last();
    if m < 10 && n < 10 {
        assert(decimal(m)[0] == (48 + m) as char);
        assert(decimal(n)[0] == (48 + n) as char);
    } else if m >= 10 && n >= 10 {
        assert(decimal(m).drop_last() =~= decimal(m / 10));
        assert(decimal(n).drop_last() =~= decimal(n / 10));
        lemma_decimal_injective(m / 10, n / 10);
        assert(last_m == (48 + m % 10) as char);
        assert(last_n == (48 + n % 10) as char);
    } else {
        assert(decimal(m).len() == 1 || decimal(n).len() == 1);
    }
}

/// No two nodes share a key file.
pub proof fn lemma_key_files_differ(plans: Seq<ServerPlan>, opts: Options, i: int, j: int)
    requires
        0 <= i < j < plans.len(),
        plans[i].is_for(opts, i),
        plans[j].is_for(opts, j),
    ensures
        plans[i].key_file@ != plans[j].key_file@,
{
    if plans[i].key_file@ == plans[j].key_file@ {
        let a = decimal(i as nat);
        let b = decimal(j as nat);
        let ending = ".pem"@;
        assert((a + ending).len() == a.len() + ending.len());
        assert((b + ending).len() == b.len() + ending.len());
        assert forall|k: int| 0 <= k < a.len() implies a[k] == b[k] by {
            assert((a + ending)[k] == (b + ending)[k]);
        }
        assert(a =~= b);
        lemma_decimal_injective(i as nat, j as nat);
    }
}

/// A snapshot is found again: a run with the name of a snapshot that an earlier run made takes its
/// keys from the same directory, which is not made anew, and from the same files, whose keys it
/// reads, on the same addresses and ports.
pub proof fn lemma_snapshot_is_found_again(
    first: Snapshot,
    second: Snapshot,
    first_opts: Options,
    second_opts: Options,
    first_entries: Seq<CacheEntry>,
    second_entries: Seq<CacheEntry>,
    first_now: i64,
    second_now: i64,
    first_plan: ServerPlan,
    second_plan: ServerPlan,
    index: int,
)
    requires
        first_opts.snapshot@ == "new"@,
        first.is_for(first_opts, first_entries, first_now),
        utc_text(first_now, timecode_pattern()) == Some(second_opts.snapshot@),
        second.is_for(second_opts, second_entries, second_now),
        first_opts.cache_dir@ == second_opts.cache_dir@,
        first_opts.ip_listen@ == second_opts.ip_listen@,
        first_opts.port_udp == second_opts.port_udp,
        first_plan.is_for(first_opts, index),
        second_plan.is_for(second_opts, index),
    ensures
        first.is_new,
        !second.is_new,
        second.path@ == first.path@,
        first_plan.generate_key,
        !second_plan.generate_key,
        second_plan.key_file@ == first_plan.key_file@,
        second_plan.ip@ == first_plan.ip@,
        second_plan.port == first_plan.port,
{
    reveal_strlit("new");
    reveal_strlit("last");
}

/// The files of a snapshot are found again: a run with the name of a snapshot that an earlier run
/// made looks for a file where that run kept it, if the directory that was made is the newest one.
pub proof fn lemma_snapshot_file_is_found_again(
    first: Snapshot,
    first_opts: Options,
    second_opts: Options,
    entries_before: Seq<CacheEntry>,
    first_entries: Seq<CacheEntry>,
    second_entries: Seq<CacheEntry>,
    now: i64,
    file: Seq<char>,
    kept: Seq<char>,
    sought: Seq<char>,
)
    requires
        first_opts.snapshot@ == "new"@,
        first.is_for(first_opts, entries_before, now),
        is_newest_path(first.path@, first_entries),
        is_snapshot_file(kept, first_opts, first_entries, file),
        utc_text(now, timecode_pattern()) == Some(second_opts.snapshot@),
        first_opts.cache_dir@ == second_opts.cache_dir@,
        is_snapshot_file(sought, second_opts, second_entries, file),
    ensures
        sought == kept,
{
    reveal_strlit("new");
    reveal_strlit("last");
    let i = choose|i: int| #[trigger]
        is_newest(first_entries, i) && first_entries[i].path@ == first.path@;
    let j = choose|j: int| #[trigger]
        is_newest(first_entries, j) && kept == in_dir(first_entries[j].path@, file);
    assert(first_entries[i].modified <= first_entries[j].modified);
    assert(first_entries[j].modified <= first_entries[i].modified);
    assert(i == j);
}

/// How paths are joined: the part follows the directory, with exactly one slash between them. A part
/// that starts with a slash, or one in the directory with no path, is the whole path.
pub proof fn lemma_joined_paths(dir: Seq<char>, part: Seq<char>)
    ensures
        dir.len() == 0 ==> in_dir(dir, part) == part,
        part.len() > 0 && part[0] == '/' ==> in_dir(dir, part) == part,
        dir.len() > 0 && !(part.len() > 0 && part[0] == '/') ==> {
            let path = in_dir(dir, part);
            let ends = dir[dir.len() - 1] == '/';
            &&& path.len() == dir.len() + part.len() + (if ends {
                0int
            } else {
                1int
            })
            &&& path.take(dir.len() as int) == dir
            &&& path.skip(path.len() - part.len()) == part
            &&& path[path.len() - part.len() - 1] == '/'
        },
{
    reveal_strlit("/");
    let path = in_dir(dir, part);
    if dir.len() > 0 && !(part.len() > 0 && part[0] == '/') {
        assert(path.take(dir.len() as int) =~= dir);
        assert(path.skip(path.len() - part.len()) =~= part);
    }
}

/// Which entry is the newest: one that no other was modified after, and the last one in the list of
/// those that were modified at that time. There is only one.
pub proof fn lemma_newest_is_exact(entries: Seq<CacheEntry>, index: int, other: int)
    ensures
        is_newest(entries, index) <==> 0 <= index < entries.len() && forall|i: int|
            0 <= i < entries.len() ==> (#[trigger] entries[i]).modified < entries[index].modified
                || entries[i].modified == entries[index].modified && i <= index,
        is_newest(entries, index) && is_newest(entries, other) ==> index == other,
{
    if is_newest(entries, index) {
        assert forall|i: int| 0 <= i < entries.len() implies (#[trigger] entries[i]).modified
            < entries[index].modified || entries[i].modified == entries[index].modified && i
            <= index by {
            assert(entries[i].modified <= entries[index].modified);
        }
    }
    if is_newest(entries, index) && is_newest(entries, other) {
        assert(entries[index].modified <= entries[other].modified);
        assert(entries[other].modified <= entries[index].modified);
    }
}

/// Where the keys of a run are: for the snapshot `new` in a directory that is to be made under the
/// cache directory and is named by the moment; for `last` in the newest directory that there is; and
/// otherwise in the one of that name under the cache directory.
pub proof fn lemma_snapshot_is_exact(
    snapshot: Snapshot,
    opts: Options,
    entries: Seq<CacheEntry>,
    now: i64,
)
    requires
        snapshot.is_for(opts, entries, now),
    ensures
        snapshot.is_new <==> opts.snapshot@ == seq!['n', 'e', 'w'],
        opts.snapshot@ == seq!['n', 'e', 'w'] ==> utc_text(now, "%Y-%m-%d-%T"@) is Some
            && snapshot.path@ == in_dir(opts.cache_dir@, utc_text(now, "%Y-%m-%d-%T"@)->0),
        opts.snapshot@ == seq!['l', 'a', 's', 't'] ==> exists|i: int|
            0 <= i < entries.len() && snapshot.path@ == (#[trigger] entries[i]).path@
                && forall|j: int|
                0 <= j < entries.len() ==> (#[trigger] entries[j]).modified < entries[i].modified
                    || entries[j].modified == entries[i].modified && j <= i,
        opts.snapshot@ != seq!['n', 'e', 'w'] && opts.snapshot@ != seq!['l', 'a', 's', 't']
            ==> snapshot.path@ == in_dir(opts.cache_dir@, opts.snapshot@),
{
    reveal_strlit("new");
    reveal_strlit("last");
    assert("new"@ =~= seq!['n', 'e', 'w']);
    assert("last"@ =~= seq!['l', 'a', 's', 't']);
    assert(seq!['n', 'e', 'w'].len() != seq!['l', 'a', 's', 't'].len());
    if opts.snapshot@ == seq!['l', 'a', 's', 't'] {
        let i = choose|i: int| #[trigger]
            is_newest(entries, i) && entries[i].path@ == snapshot.path@;
        lemma_newest_is_exact(entries, i, i);
        assert(snapshot.path@ == entries[i].path@);
    }
}

/// Where a file of a snapshot is: in the newest directory for the snapshots `new` and `last`, and
/// otherwise in the one of that name under the cache directory.
pub proof fn lemma_snapshot_file_is_exact(
    path: Seq<char>,
    opts: Options,
    entries: Seq<CacheEntry>,
    file: Seq<char>,
)
    requires
        is_snapshot_file(path, opts, entries, file),
    ensures
        opts.snapshot@ == seq!['n', 'e', 'w'] || opts.snapshot@ == seq!['l', 'a', 's', 't']
            ==> exists|i: int|
            0 <= i < entries.len() && path == in_dir((#[trigger] entries[i]).path@, file)
                && forall|j: int|
                0 <= j < entries.len() ==> (#[trigger] entries[j]).modified < entries[i].modified
                    || entries[j].modified == entries[i].modified && j <= i,
        opts.snapshot@ != seq!['n', 'e', 'w'] && opts.snapshot@ != seq!['l', 'a', 's', 't']
            ==> path == in_dir(in_dir(opts.cache_dir@, opts.snapshot@), file),
{
    reveal_strlit("new");
    reveal_strlit("last");
    assert("new"@ =~= seq!['n', 'e', 'w']);
    assert("last"@ =~= seq!['l', 'a', 's', 't']);
    if opts.snapshot@ == seq!['n', 'e', 'w'] || opts.snapshot@ == seq!['l', 'a', 's', 't'] {
        let i = choose|i: int| #[trigger]
            is_newest(entries, i) && path == in_dir(entries[i].path@, file);
        lemma_newest_is_exact(entries, i, i);
        assert(path == in_dir(entries[i].path@, file));
    }
}

/// The number that decimal digits spell.
pub open spec fn spelled(digits: Seq<char>) -> int
    decreases digits.len(),
{
    if digits.len() == 0 {
        0
    } else {
        10 * spelled(digits.drop_last()) + (digits.last() as int - '0' as int)
    }
}

/// The decimal digits of a number spell it, without needless zeros in front.
pub proof fn lemma_decimal_spells(n: nat)
    ensures
        spelled(decimal(n)) == n,
        decimal(n).len() > 0,
        forall|i: int|
            0 <= i < decimal(n).len() ==> '0' as int <= #[trigger] decimal(n)[i] as int <= '9' as int,
        n > 0 ==> decimal(n)[0] != '0',
        n == 0 ==> decimal(n).len() == 1,
    decreases n,
{
    let digits = decimal(n);
    if n >= 10 {
        lemma_decimal_spells(n / 10);
        assert(digits.drop_last() =~= decimal(n / 10));
        assert(digits.last() as int == 48 + n % 10);
    } else {
        assert(digits.drop_last() =~= Seq::<char>::empty());
        assert(digits.last() as int == 48 + n);
        assert(spelled(digits.drop_last()) == 0);
    }
}

/// How a node is started: on the address and the port that are its own, with the key in the file that
/// is named by its number, which is made anew only for a new snapshot. A request is tried ten more
/// times, a query may take a minute, and any number of nodes may share an address.
pub proof fn lemma_server_plan_is_exact(plan: ServerPlan, opts: Options, index: int)
    requires
        plan.is_for(opts, index),
        index >= 0,
    ensures
        plan.ip@ == opts.ip_listen@,
        plan.port == opts.port_udp + index,
        plan.key_file@.len() > 4,
        spelled(plan.key_file@.take(plan.key_file@.len() - 4)) == index,
        plan.key_file@.skip(plan.key_file@.len() - 4) == seq!['.', 'p', 'e', 'm'],
        plan.generate_key <==> opts.snapshot@ == seq!['n', 'e', 'w'],
        plan.request_retries == 10,
        plan.request_timeout_secs == opts.request_timeout,
        plan.query_timeout_secs == 60,
        plan.max_nodes_per_ip is None,
{
    reveal_strlit("new");
    reveal_strlit(".pem");
    assert("new"@ =~= seq!['n', 'e', 'w']);
    assert(".pem"@ =~= seq!['.', 'p', 'e', 'm']);
    lemma_decimal_spells(index as nat);
    assert(plan.key_file@.take(plan.key_file@.len() - 4) =~= decimal(index as nat));
    assert(plan.key_file@.skip(plan.key_file@.len() - 4) =~= ".pem"@);
}

} // verus!
