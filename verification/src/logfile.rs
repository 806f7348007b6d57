//! The journal logging policy: the syslog identifier a process reports
//! under, and the per-module level filter applied before a record reaches
//! the journal.

use vstd::prelude::*;
use crate::strutil::{contains_seq, lemma_trim_end_by_at, spec_trim_end_by, str_contains, str_eq};

verus! {

/// Whether a formatted console record belongs on the error stream: it
/// carries a warning or error level tag.
pub fn log_line_to_stderr(s: &str) -> (r: bool)
    ensures
        r == (contains_seq(s@, " WARN "@) || contains_seq(s@, " ERROR "@)),
{
    str_contains(s, " WARN ") || str_contains(s, " ERROR ")
}

/// A record's severity, most severe first.
#[derive(PartialEq, Eq, Structural, Debug, Clone, Copy)]
pub enum LogLevel {
    Error,
    Warn,
    Info,
    Debug,
    Trace,
}

/// The rank of a severity: a greater rank is a less severe record.
pub open spec fn spec_rank(l: LogLevel) -> int {
    match l {
        LogLevel::Error => 1,
        LogLevel::Warn => 2,
        LogLevel::Info => 3,
        LogLevel::Debug => 4,
        LogLevel::Trace => 5,
    }
}

/// The rank of a severity.
pub fn level_rank(l: LogLevel) -> (r: u8)
    ensures
        r as int == spec_rank(l),
{
    match l {
        LogLevel::Error => 1,
        LogLevel::Warn => 2,
        LogLevel::Info => 3,
        LogLevel::Debug => 4,
        LogLevel::Trace => 5,
    }
}

/// What the journal logger is set up with: the syslog identifier, the
/// per-module level caps, and the cap for every other module.
pub struct JournalConfig {
    pub identifier: String,
    pub filter: Vec<(String, LogLevel)>,
    pub default_level: LogLevel,
}

/// The characters of `s` after its last slash.
pub open spec fn spec_after_slash(s: Seq<char>) -> Seq<char>
    decreases s.len(),
{
    if s.len() == 0 {
        s
    } else if s.last() == '/' {
        Seq::<char>::empty()
    } else {
        spec_after_slash(s.drop_last()).push(s.last())
    }
}

/// The file-name part of a path text: trailing slashes dropped, then what
/// follows the last slash; empty when that names no file (nothing, the
/// current or the parent directory).
pub open spec fn spec_file_name(s: Seq<char>) -> Seq<char> {
    let t = spec_trim_end_by(s, |c: char| c == '/');
    let b = spec_after_slash(t);
    if b.len() == 0 || b == "."@ || b == ".."@ {
        Seq::<char>::empty()
    } else {
        b
    }
}

proof fn lemma_after_slash_at(s: Seq<char>, a: int)
    requires
        0 <= a <= s.len(),
        forall|k: int| a <= k < s.len() ==> s[k] != '/',
        a > 0 ==> s[a - 1] == '/',
    ensures
        spec_after_slash(s) == s.subrange(a, s.len() as int),
    decreases s.len() - a,
{
    if a == s.len() {
        if s.len() > 0 {
            assert(s.last() == '/');
        }
        assert(s.subrange(a, s.len() as int) =~= Seq::<char>::empty());
    } else {
        assert(s.last() != '/');
        if s.len() == 1 {
            assert(a == 0);
            assert(s.subrange(0, 1) =~= Seq::<char>::empty().push(s.last()));
            assert(spec_after_slash(s.drop_last()) == Seq::<char>::empty());
        } else {
            assert(forall|k: int| a <= k < s.drop_last().len() ==> s.drop_last()[k] != '/');
            if a > 0 {
                assert(s.drop_last()[a - 1] == s[a - 1]);
            }
            lemma_after_slash_at(s.drop_last(), a);
            assert(s.drop_last().subrange(a, s.drop_last().len() as int).push(s.last())
                =~= s.subrange(a, s.len() as int));
        }
    }
}

/// The file-name part of a path text.
pub fn file_name_of(s: &str) -> (r: String)
    ensures
        r@ == spec_file_name(s@),
{
    let ghost p = |c: char| c == '/';
    let len = s.unicode_len();
    let mut b: usize = len;
    while b > 0 && s.get_char(b - 1) == '/'
        invariant
            0 <= b <= len,
            len == s@.len(),
            forall|k: int| b <= k < len ==> s@[k] == '/',
        decreases b,
    {
        b = b - 1;
    }
    proof {
        lemma_trim_end_by_at(s@, p, b as int);
    }
    let ghost t = s@.subrange(0, b as int);
    let mut a: usize = b;
    while a > 0 && s.get_char(a - 1) != '/'
        invariant
            0 <= a <= b <= len,
            len == s@.len(),
            forall|k: int| a <= k < b ==> s@[k] != '/',
        decreases a,
    {
        a = a - 1;
    }
    proof {
        assert(forall|k: int| a <= k < t.len() ==> t[k] == s@[k]);
        if a > 0 {
            assert(t[a - 1] == '/');
        }
        lemma_after_slash_at(t, a as int);
        assert(t.subrange(a as int, t.len() as int) =~= s@.subrange(a as int, b as int));
    }
    let base = s.substring_char(a, b);
    if base.unicode_len() == 0 || str_eq(base, ".") || str_eq(base, "..") {
        String::new()
    } else {
        base.to_owned()
    }
}

/// The journal set-up for a process started with these arguments: the
/// identifier is the file name of the first argument (or of the fixed
/// fallback when there is none), overridden by a second argument that asks
/// for the production-test name; the noisy transport modules are capped at
/// warnings and everything else logs through the debug level.
pub fn log_init_journal(args: &Vec<String>) -> (r: JournalConfig)
    ensures
        r.identifier@ == (if args@.len() > 1 && args@[1]@ == "product-test"@ {
            "product-test"@
        } else if args@.len() > 0 {
            spec_file_name(args@[0]@)
        } else {
            spec_file_name("unknown"@)
        }),
        r.filter@.len() == 7,
        r.filter@[0].0@ == "paho_mqtt_c"@ && r.filter@[0].1 == LogLevel::Warn,
        r.filter@[1].0@ == "paho_mqtt"@ && r.filter@[1].1 == LogLevel::Warn,
        r.filter@[2].0@ == "hyper"@ && r.filter@[2].1 == LogLevel::Warn,
        r.filter@[3].0@ == "mio-serial"@ && r.filter@[3].1 == LogLevel::Warn,
        r.filter@[4].0@ == "reqwest"@ && r.filter@[4].1 == LogLevel::Warn,
        r.filter@[5].0@ == "ssh"@ && r.filter@[5].1 == LogLevel::Warn,
        r.filter@[6].0@ == "ntp"@ && r.filter@[6].1 == LogLevel::Warn,
        r.default_level == LogLevel::Debug,
{
    let mut identifier: String;
    if args.len() > 0 {
        identifier = file_name_of(args[0].as_str());
    } else {
        identifier = file_name_of("unknown");
    }
    if args.len() > 1 && str_eq(args[1].as_str(), "product-test") {
        identifier = ("product-test").to_owned();
    }
    let mut filter: Vec<(String, LogLevel)> = Vec::new();
    filter.push((("paho_mqtt_c").to_owned(), LogLevel::Warn));
    filter.push((("paho_mqtt").to_owned(), LogLevel::Warn));
    filter.push((("hyper").to_owned(), LogLevel::Warn));
    filter.push((("mio-serial").to_owned(), LogLevel::Warn));
    filter.push((("reqwest").to_owned(), LogLevel::Warn));
    filter.push((("ssh").to_owned(), LogLevel::Warn));
    filter.push((("ntp").to_owned(), LogLevel::Warn));
    JournalConfig { identifier, filter, default_level: LogLevel::Debug }
}

/// Where the first path segment of a module path ends: at the first double
/// colon, or at the end.
pub open spec fn seg_end(s: Seq<char>) -> int
    decreases s.len(),
{
    if s.len() < 2 {
        s.len() as int
    } else if s[0] == ':' && s[1] == ':' {
        0
    } else {
        1 + seg_end(s.drop_first())
    }
}

/// The crate part of a module path: what stands before the first double
/// colon.
pub open spec fn spec_first_segment(s: Seq<char>) -> Seq<char> {
    s.take(seg_end(s))
}

proof fn lemma_seg_end_at(s: Seq<char>, e: int)
    requires
        0 <= e <= s.len(),
        forall|k: int| 0 <= k < e && k + 1 < s.len() ==> !(#[trigger] s[k] == ':' && s[k + 1]
            == ':'),
        e < s.len() ==> e + 1 < s.len() && s[e] == ':' && s[e + 1] == ':',
        e == s.len() - 1 ==> e == s.len(),
    ensures
        seg_end(s) == e,
    decreases e,
{
    if s.len() < 2 {
    } else if e == 0 {
    } else {
        assert(!(s[0] == ':' && s[1] == ':'));
        let d = s.drop_first();
        assert(forall|k: int| 0 <= k < d.len() ==> d[k] == s[k + 1]);
        lemma_seg_end_at(d, e - 1);
    }
}

/// The per-module cap for a crate name: the level of the first filter
/// entry that names it, if one does.
pub open spec fn spec_filter_cap(filter: Seq<(String, LogLevel)>, m: Seq<char>) -> Option<
    LogLevel,
>
    decreases filter.len(),
{
    if filter.len() == 0 {
        Option::<LogLevel>::None
    } else if filter.first().0@ == m {
        Option::<LogLevel>::Some(filter.first().1)
    } else {
        spec_filter_cap(filter.drop_first(), m)
    }
}

/// A record passes the journal filter: it is within the default cap, and
/// within its crate's own cap where the filter names the crate. The crate
/// is the module path up to the first double colon.
pub open spec fn spec_journal_allows(
    filter: Seq<(String, LogLevel)>,
    default_level: LogLevel,
    modpath: Seq<char>,
    level: LogLevel,
) -> bool {
    &&& spec_rank(level) <= spec_rank(default_level)
    &&& (match spec_filter_cap(filter, spec_first_segment(modpath)) {
        Option::Some(cap) => spec_rank(level) <= spec_rank(cap),
        Option::None => true,
    })
}

/// Decide whether a record from this module path at this severity reaches
/// the journal.
pub fn journal_allows(conf: &JournalConfig, modpath: &str, level: LogLevel) -> (r: bool)
    ensures
        r == spec_journal_allows(conf.filter@, conf.default_level, modpath@, level),
{
    let rank = level_rank(level);
    if rank > level_rank(conf.default_level) {
        return false;
    }
    let len = modpath.unicode_len();
    let mut e: usize = 0;
    let mut found = false;
    while len > 0 && e < len - 1 && !found
        invariant
            0 <= e <= len,
            len == modpath@.len(),
            found ==> e + 1 < len && modpath@[e as int] == ':' && modpath@[e + 1] == ':',
            forall|k: int|
                0 <= k < e && k + 1 < len ==> !(modpath@[k] == ':' && #[trigger] modpath@[k
                    + 1] == ':'),
        decreases len - e + (if found { 0int } else { 1int }),
    {
        if modpath.get_char(e) == ':' && modpath.get_char(e + 1) == ':' {
            found = true;
        } else {
            e = e + 1;
        }
    }
    if !found {
        e = len;
    }
    proof {
        lemma_seg_end_at(modpath@, e as int);
    }
    let seg = modpath.substring_char(0, e);
    proof {
        assert(seg@ =~= spec_first_segment(modpath@));
    }
    let mut j: usize = 0;
    while j < conf.filter.len()
        invariant
            0 <= j <= conf.filter@.len(),
            seg@ == spec_first_segment(modpath@),
            forall|t: int| 0 <= t < j ==> (#[trigger] conf.filter@[t]).0@ != seg@,
            spec_rank(level) <= spec_rank(conf.default_level),
        decreases conf.filter@.len() - j,
    {
        if str_eq(conf.filter[j].0.as_str(), seg) {
            proof {
                lemma_filter_cap_at(conf.filter@, seg@, j as int);
            }
            return level_rank(level) <= level_rank(conf.filter[j].1);
        }
        j = j + 1;
    }
    proof {
        lemma_filter_cap_none(conf.filter@, seg@);
    }
    true
}

proof fn lemma_filter_cap_at(filter: Seq<(String, LogLevel)>, m: Seq<char>, j: int)
    requires
        0 <= j < filter.len(),
        forall|t: int| 0 <= t < j ==> (#[trigger] filter[t]).0@ != m,
        filter[j].0@ == m,
    ensures
        spec_filter_cap(filter, m) == Option::<LogLevel>::Some(filter[j].1),
    decreases j,
{
    if j > 0 {
        let d = filter.drop_first();
        assert(forall|t: int| 0 <= t < d.len() ==> d[t] == filter[t + 1]);
        lemma_filter_cap_at(d, m, j - 1);
    }
}

proof fn lemma_filter_cap_none(filter: Seq<(String, LogLevel)>, m: Seq<char>)
    requires
        forall|t: int| 0 <= t < filter.len() ==> (#[trigger] filter[t]).0@ != m,
    ensures
        spec_filter_cap(filter, m) == Option::<LogLevel>::None,
    decreases filter.len(),
{
    if filter.len() > 0 {
        let d = filter.drop_first();
        assert(forall|t: int| 0 <= t < d.len() ==> d[t] == filter[t + 1]);
        lemma_filter_cap_none(d, m);
    }
}

} // verus!
