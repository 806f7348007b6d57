//! Configuration data and the readers for the externally maintained lists.

use vstd::prelude::*;
use crate::strutil::{
    is_prefix, spec_lines, spec_remove_all, spec_trim, starts_with, str_lines, remove_all, trim,
    views,
};

verus! {

/// The station's command-line options.
pub struct Opt {
    /// The address the control and discovery ports bind to.
    pub ip: String,
    /// The control and discovery port.
    pub port: u16,
    /// The serial device of the sensor fixture.
    pub uart_sensor: String,
    /// The serial device of the antenna fixture.
    pub uart_ant: String,
    /// The radio channel of the antenna test.
    pub ant_chn: u8,
    /// The eight-direction capture time in seconds.
    pub eight_timeout: u8,
}

impl Default for Opt {
    /// The documented defaults: loopback address, the default port, the two
    /// fixture serial paths, the middle advertising channel, one minute.
    fn default() -> (r: Self)
        ensures
            r.ip@ == "127.0.0.1"@,
            r.port == 12345,
            r.uart_sensor@ == "/dev/ttyLP3"@,
            r.uart_ant@ == "/dev/ttyLP4"@,
            r.ant_chn == 38,
            r.eight_timeout == 60,
    {
        Opt {
            ip: ("127.0.0.1").to_owned(),
            port: 12345,
            uart_sensor: ("/dev/ttyLP3").to_owned(),
            uart_ant: ("/dev/ttyLP4").to_owned(),
            ant_chn: 38,
            eight_timeout: 60,
        }
    }
}

/// The gateway configuration form fields.
pub struct CgiParm {
    pub ssl: String,
    pub wss: bool,
    pub port: u16,
    pub net_dhcp: bool,
    pub net_iptype: String,
    pub ew_auto: bool,
    pub ew_ipaddr: String,
    pub ew_port: u16,
    pub ew_ssl: bool,
    pub ew_ssl_mutual_auth: bool,
    pub ew_wss: bool,
}

/// What one configured line contributes to the tag list: the trimmed rest
/// of a line with the id prefix, the line itself otherwise.
pub open spec fn esl_entry(l: Seq<char>) -> Seq<char> {
    if is_prefix("eslid="@, l) {
        spec_trim(l.skip("eslid="@.len() as int))
    } else {
        l
    }
}

/// The tag list held by a configured text: one entry per line.
pub fn get_esl(contents: &str) -> (r: Vec<String>)
    ensures
        views(r@) == spec_lines(contents@).map_values(|l: Seq<char>| esl_entry(l)),
{
    let lines = str_lines(contents);
    let ghost ls = spec_lines(contents@);
    let mut r: Vec<String> = Vec::new();
    let mut i: usize = 0;
    proof {
        assert(views(r@) =~= ls.take(0).map_values(|l: Seq<char>| esl_entry(l)));
    }
    while i < lines.len()
        invariant
            0 <= i <= lines@.len(),
            ls == spec_lines(contents@),
            views(lines@) == ls,
            views(r@) == ls.take(i as int).map_values(|l: Seq<char>| esl_entry(l)),
        decreases lines@.len() - i,
    {
        let ghost l = ls[i as int];
        proof {
            assert(lines@[i as int]@ == l);
        }
        let line = &lines[i];
        let entry: String = if starts_with(line.as_str(), "eslid=") {
            proof {
                reveal_strlit("eslid=");
            }
            let rest = line.as_str().substring_char(6, line.as_str().unicode_len());
            proof {
                assert(rest@ =~= l.skip("eslid="@.len() as int));
            }
            trim(rest).to_owned()
        } else {
            line.clone()
        };
        proof {
            assert(entry@ == esl_entry(l));
            assert(ls.take(i + 1).map_values(|x: Seq<char>| esl_entry(x)) =~= ls.take(
                i as int,
            ).map_values(|x: Seq<char>| esl_entry(x)).push(esl_entry(l)));
            assert(views(r@.push(entry)) =~= views(r@).push(entry@));
        }
        r.push(entry);
        i = i + 1;
    }
    proof {
        assert(ls.take(ls.len() as int) =~= ls);
    }
    r
}

/// The identifier list held by a white-list text: comment lines are
/// dropped and a trailing `=` user-code suffix is removed wherever it
/// occurs in a line.
pub fn get_esl_id_out(contents: &str, uc: &str) -> (r: Vec<String>)
    ensures
        views(r@) == spec_lines(contents@).filter(|l: Seq<char>| !is_prefix("#"@, l)).map_values(
            |l: Seq<char>| spec_remove_all(l, "="@ + uc@),
        ),
{
    let lines = str_lines(contents);
    let ghost ls = spec_lines(contents@);
    let ghost pred = |l: Seq<char>| !is_prefix("#"@, l);
    let mut pat = String::new();
    pat.append("=");
    pat.append(uc);
    proof {
        assert(pat@ =~= "="@ + uc@);
    }
    let mut r: Vec<String> = Vec::new();
    let mut i: usize = 0;
    proof {
        reveal(Seq::filter);
        assert(ls.take(0) =~= Seq::<Seq<char>>::empty());
        assert(views(r@) =~= ls.take(0).filter(pred).map_values(
            |l: Seq<char>| spec_remove_all(l, "="@ + uc@),
        ));
    }
    while i < lines.len()
        invariant
            0 <= i <= lines@.len(),
            ls == spec_lines(contents@),
            views(lines@) == ls,
            pat@ == "="@ + uc@,
            pred == (|l: Seq<char>| !is_prefix("#"@, l)),
            views(r@) == ls.take(i as int).filter(pred).map_values(
                |l: Seq<char>| spec_remove_all(l, "="@ + uc@),
            ),
        decreases lines@.len() - i,
    {
        let ghost l = ls[i as int];
        proof {
            assert(lines@[i as int]@ == l);
            assert(ls.take(i + 1).drop_last() =~= ls.take(i as int));
            assert(ls.take(i + 1).last() == l);
        }
        if !starts_with(lines[i].as_str(), "#") {
            let cleaned = remove_all(lines[i].as_str(), pat.as_str());
            proof {
                reveal(Seq::filter);
                assert(pred(l));
                assert(ls.take(i + 1).filter(pred) =~= ls.take(i as int).filter(pred).push(l));
                assert(views(r@.push(cleaned)) =~= views(r@).push(cleaned@));
                assert(views(r@).push(cleaned@) =~= ls.take(i + 1).filter(pred).map_values(
                    |x: Seq<char>| spec_remove_all(x, "="@ + uc@),
                ));
            }
            r.push(cleaned);
        } else {
            proof {
                reveal(Seq::filter);
                assert(!pred(l));
                assert(ls.take(i + 1).filter(pred) =~= ls.take(i as int).filter(pred));
            }
        }
        i = i + 1;
    }
    proof {
        assert(ls.take(ls.len() as int) =~= ls);
    }
    r
}

/// A clock text in the configured shape: two digits, a colon, two digits,
/// naming a time of day.
pub open spec fn valid_hm(s: Seq<char>) -> bool {
    &&& s.len() == 5
    &&& s[2] == ':'
    &&& forall|k: int| (k == 0 || k == 1 || k == 3 || k == 4) ==> crate::strutil::is_dec_digit(
        #[trigger] s[k],
    )
    &&& (s[0] as int - 0x30) * 10 + (s[1] as int - 0x30) < 24
    &&& (s[3] as int - 0x30) * 10 + (s[4] as int - 0x30) < 60
}

/// The second of the day a clock text names.
pub open spec fn hm_seconds(s: Seq<char>) -> int {
    ((s[0] as int - 0x30) * 10 + (s[1] as int - 0x30)) * 3600 + ((s[3] as int - 0x30) * 10 + (
    s[4] as int - 0x30)) * 60
}

fn hm_parse(s: &str) -> (r: Option<u64>)
    ensures
        r is Some <==> valid_hm(s@),
        r matches Some(v) ==> v as int == hm_seconds(s@),
{
    if s.unicode_len() != 5 {
        return None;
    }
    if s.get_char(2) != ':' {
        return None;
    }
    let c0 = s.get_char(0) as u32;
    let c1 = s.get_char(1) as u32;
    let c3 = s.get_char(3) as u32;
    let c4 = s.get_char(4) as u32;
    if !(0x30 <= c0 && c0 <= 0x39 && 0x30 <= c1 && c1 <= 0x39 && 0x30 <= c3 && c3 <= 0x39 && 0x30
        <= c4 && c4 <= 0x39) {
        return None;
    }
    let h = (c0 - 0x30) * 10 + (c1 - 0x30);
    let m = (c3 - 0x30) * 10 + (c4 - 0x30);
    if h >= 24 || m >= 60 {
        return None;
    }
    Some((h as u64) * 3600 + (m as u64) * 60)
}

/// The seconds between the two clock texts of a quiet window, the second
/// not before the first. The texts are two-digit hours and minutes with a
/// colon between them.
pub fn need_sleep_time(args: &[String; 2]) -> (r: u64)
    requires
        valid_hm(args[0]@),
        valid_hm(args[1]@),
        hm_seconds(args[0]@) <= hm_seconds(args[1]@),
    ensures
        r as int == hm_seconds(args[1]@) - hm_seconds(args[0]@),
{
    let t1 = hm_parse(args[0].as_str());
    let t2 = hm_parse(args[1].as_str());
    let s1 = match t1 {
        Some(v) => v,
        None => 0,
    };
    let s2 = match t2 {
        Some(v) => v,
        None => 0,
    };
    s2 - s1
}

/// A text occurs in a list of texts.
pub open spec fn text_in(keys: Seq<Seq<char>>, k: Seq<char>) -> bool {
    exists|j: int| 0 <= j < keys.len() && #[trigger] keys[j] == k
}

/// The entries of `all` that `recv` does not hold, in order: the tags that
/// were asked for but never acknowledged.
pub fn check_is_in(all: &Vec<String>, recv: &Vec<String>) -> (r: Vec<String>)
    ensures
        views(r@) == views(all@).filter(|k: Seq<char>| !text_in(views(recv@), k)),
{
    let ghost pred = |k: Seq<char>| !text_in(views(recv@), k);
    let mut r: Vec<String> = Vec::new();
    let mut i: usize = 0;
    proof {
        reveal(Seq::filter);
        assert(views(all@).take(0) =~= Seq::<Seq<char>>::empty());
        assert(views(r@) =~= views(all@).take(0).filter(pred));
    }
    while i < all.len()
        invariant
            0 <= i <= all@.len(),
            pred == (|k: Seq<char>| !text_in(views(recv@), k)),
            views(r@) == views(all@).take(i as int).filter(pred),
        decreases all@.len() - i,
    {
        let ghost kv = views(all@)[i as int];
        proof {
            assert(all@[i as int]@ == kv);
            assert(views(all@).take(i + 1).drop_last() =~= views(all@).take(i as int));
            assert(views(all@).take(i + 1).last() == kv);
        }
        let mut found = false;
        let mut j: usize = 0;
        while j < recv.len() && !found
            invariant
                0 <= j <= recv@.len(),
                0 <= i < all@.len(),
                kv == views(all@)[i as int],
                found ==> text_in(views(recv@), kv),
                !found ==> forall|t: int| 0 <= t < j ==> #[trigger] views(recv@)[t] != kv,
            decreases recv@.len() - j + (if found { 0int } else { 1int }),
        {
            proof {
                assert(views(recv@)[j as int] == recv@[j as int]@);
            }
            if recv[j] == all[i] {
                found = true;
            } else {
                j = j + 1;
            }
        }
        if !found {
            let entry = all[i].clone();
            proof {
                reveal(Seq::filter);
                assert(pred(kv));
                assert(views(all@).take(i + 1).filter(pred) =~= views(all@).take(
                    i as int,
                ).filter(pred).push(kv));
                assert(views(r@.push(entry)) =~= views(r@).push(entry@));
            }
            r.push(entry);
        } else {
            proof {
                reveal(Seq::filter);
                assert(!pred(kv));
                assert(views(all@).take(i + 1).filter(pred) =~= views(all@).take(i as int).filter(
                    pred,
                ));
            }
        }
        i = i + 1;
    }
    proof {
        assert(views(all@).take(all@.len() as int) =~= views(all@));
    }
    r
}

/// Whether a moment lies inside a daily window: not before its start and
/// not after its end. The window ends are clock texts and the moment is a
/// second of the day.
pub fn is_during(start_time: &str, end_time: &str, now_secs: u32) -> (r: bool)
    requires
        valid_hm(start_time@),
        valid_hm(end_time@),
    ensures
        r == (hm_seconds(start_time@) <= now_secs as int <= hm_seconds(end_time@)),
{
    let s = match hm_parse(start_time) {
        Some(v) => v,
        None => 0,
    };
    let e = match hm_parse(end_time) {
        Some(v) => v,
        None => 0,
    };
    s <= now_secs as u64 && now_secs as u64 <= e
}

} // verus!
