//! Which frameworks there are, the ports each one's server listens on, where
//! its control routes are, and which process on this machine is its server.

use vstd::prelude::*;
use vstd::string::*;

use crate::text::{decimal, push_char, push_decimal, str_eq};

verus! {

/// A framework: its name, its server's language, and its first and last
/// benchmark ports.
pub struct Framework {
    pub name: &'static str,
    pub lang: &'static str,
    pub first_port: u16,
    pub last_port: u16,
}

/// `Framework`, text as characters.
pub struct FrameworkView {
    pub name: Seq<char>,
    pub lang: Seq<char>,
    pub first_port: int,
    pub last_port: int,
}

pub open spec fn entry(name: Seq<char>, lang: Seq<char>, first_port: int, last_port: int) -> FrameworkView {
    FrameworkView { name, lang, first_port, last_port }
}

/// Every framework, in the order the reports list them.
pub open spec fn frameworks() -> Seq<FrameworkView> {
    seq![
        entry("axum"@, "rust"@, 14001, 14050),
        entry("fasthttp"@, "go"@, 10001, 10050),
        entry("fib"@, "go"@, 11001, 11050),
        entry("gin"@, "go"@, 12001, 12050),
        entry("nethttp"@, "go"@, 13001, 13050),
    ]
}

impl Framework {
    pub open spec fn view_of(self) -> FrameworkView {
        FrameworkView {
            name: self.name@,
            lang: self.lang@,
            first_port: self.first_port as int,
            last_port: self.last_port as int,
        }
    }
}

/// The framework named `name`, if there is one.
pub open spec fn framework(name: Seq<char>) -> Option<FrameworkView> {
    if exists|i: int| 0 <= i < frameworks().len() && (#[trigger] frameworks()[i]).name == name {
        let i = choose|i: int| 0 <= i < frameworks().len() && (#[trigger] frameworks()[i]).name == name;
        Some(frameworks()[i])
    } else {
        None
    }
}

/// The framework table.
pub fn framework_table() -> (r: Vec<Framework>)
    ensures
        r@.len() == frameworks().len(),
        forall|i: int|
            0 <= i < r@.len() ==> (#[trigger] r@[i]).view_of() == frameworks()[i],
{
    let mut v: Vec<Framework> = Vec::new();
    v.push(Framework { name: "axum", lang: "rust", first_port: 14001, last_port: 14050 });
    v.push(Framework { name: "fasthttp", lang: "go", first_port: 10001, last_port: 10050 });
    v.push(Framework { name: "fib", lang: "go", first_port: 11001, last_port: 11050 });
    v.push(Framework { name: "gin", lang: "go", first_port: 12001, last_port: 12050 });
    v.push(Framework { name: "nethttp", lang: "go", first_port: 13001, last_port: 13050 });
    v
}

fn find(name: &str) -> (r: Option<Framework>)
    ensures
        match r {
            Some(f) => framework(name@) == Some(f.view_of()),
            None => framework(name@) is None,
        },
{
    let table = framework_table();
    let mut i: usize = 0;
    while i < table.len()
        invariant
            table@.len() == frameworks().len(),
            forall|j: int|
                0 <= j < table@.len() ==> (#[trigger] table@[j]).view_of() == frameworks()[j],
            i <= table@.len(),
            forall|j: int| 0 <= j < i ==> (#[trigger] frameworks()[j]).name != name@,
        decreases table@.len() - i,
    {
        if str_eq(table[i].name, name) {
            let f = Framework {
                name: table[i].name,
                lang: table[i].lang,
                first_port: table[i].first_port,
                last_port: table[i].last_port,
            };
            proof {
                lemma_names_distinct();
                assert(frameworks()[i as int].name == name@);
            }
            return Some(f);
        }
        i = i + 1;
    }
    None
}

proof fn lemma_names_distinct()
    ensures
        forall|i: int, j: int|
            0 <= i < frameworks().len() && 0 <= j < frameworks().len() && (#[trigger] frameworks()[i]).name
                == (#[trigger] frameworks()[j]).name ==> i == j,
{
    reveal_strlit("axum");
    reveal_strlit("fasthttp");
    reveal_strlit("fib");
    reveal_strlit("gin");
    reveal_strlit("nethttp");
    assert forall|i: int, j: int|
        0 <= i < frameworks().len() && 0 <= j < frameworks().len() && (#[trigger] frameworks()[i]).name
            == (#[trigger] frameworks()[j]).name implies i == j by {
        if i != j {
            let a = frameworks()[i].name;
            let b = frameworks()[j].name;
            assert(a.len() != b.len() || a[0] != b[0] || a[1] != b[1]);
        }
    }
}

/// Whether `framework` is one of the frameworks.
pub fn known(framework_name: &str) -> (r: bool)
    ensures
        r == framework(framework_name@) is Some,
{
    find(framework_name).is_some()
}

/// The frameworks' names, in order.
pub fn names() -> (r: Vec<&'static str>)
    ensures
        r@.len() == frameworks().len(),
        forall|i: int| 0 <= i < r@.len() ==> (#[trigger] r@[i])@ == frameworks()[i].name,
{
    let table = framework_table();
    let mut out: Vec<&'static str> = Vec::new();
    let mut i: usize = 0;
    while i < table.len()
        invariant
            table@.len() == frameworks().len(),
            forall|j: int|
                0 <= j < table@.len() ==> (#[trigger] table@[j]).view_of() == frameworks()[j],
            i <= table@.len(),
            out@.len() == i,
            forall|j: int| 0 <= j < i ==> (#[trigger] out@[j])@ == frameworks()[j].name,
        decreases table@.len() - i,
    {
        out.push(table[i].name);
        i = i + 1;
    }
    out
}

/// The language of the framework's server, `-` for an unknown framework.
pub fn lang(framework_name: &str) -> (r: &'static str)
    ensures
        r@ == match framework(framework_name@) {
            Some(f) => f.lang,
            None => "-"@,
        },
{
    match find(framework_name) {
        Some(f) => f.lang,
        None => "-",
    }
}

/// Whether `s` holds the character `c`.
pub open spec fn has_char(s: Seq<char>, c: char) -> bool {
    exists|i: int| 0 <= i < s.len() && s[i] == c
}

/// A host as a URL or a `host:port` carries it: an IPv6 literal in
/// brackets.
pub open spec fn url_host_text(ip: Seq<char>) -> Seq<char> {
    if has_char(ip, ':') && !(ip.len() > 0 && ip[0] == '[') {
        seq!['['] + ip + seq![']']
    } else {
        ip
    }
}

/// The host as a URL or a `host:port` carries it.
pub fn url_host(ip: &str) -> (r: String)
    ensures
        r@ == url_host_text(ip@),
{
    let n = ip.unicode_len();
    let mut colon = false;
    let mut i: usize = 0;
    while i < n
        invariant
            n == ip@.len(),
            i <= n,
            colon == exists|j: int| 0 <= j < i && ip@[j] == ':',
        decreases n - i,
    {
        if ip.get_char(i) == ':' {
            colon = true;
        }
        i = i + 1;
    }
    let bracketed = n > 0 && ip.get_char(0) == '[';
    let mut out = String::new();
    if colon && !bracketed {
        push_char(&mut out, '[');
        out.append(ip);
        push_char(&mut out, ']');
    } else {
        out.append(ip);
    }
    assert(out@ =~= url_host_text(ip@));
    out
}

/// `host:port` for each of the framework's benchmark ports, in order.
pub fn benchmark_addrs(framework_name: &str, ip: &str) -> (r: Vec<String>)
    requires
        framework(framework_name@) is Some,
    ensures
        ({
            let f = framework(framework_name@)->0;
            &&& r@.len() == f.last_port - f.first_port + 1
            &&& forall|i: int|
                0 <= i < r@.len() ==> (#[trigger] r@[i])@ == url_host_text(ip@) + seq![':']
                    + decimal((f.first_port + i) as nat)
        }),
{
    let f = find(framework_name).unwrap();
    let host = url_host(ip);
    let mut out: Vec<String> = Vec::new();
    let mut port: u16 = f.first_port;
    proof {
        assert(framework(framework_name@) == Some(f.view_of()));
        lemma_ports_ordered(framework_name@);
    }
    while port <= f.last_port
        invariant
            f.first_port <= port <= f.last_port + 1,
            f.last_port < 65535,
            out@.len() == port - f.first_port,
            host@ == url_host_text(ip@),
            forall|i: int|
                0 <= i < out@.len() ==> (#[trigger] out@[i])@ == url_host_text(ip@) + seq![':']
                    + decimal((f.first_port + i) as nat),
        decreases f.last_port + 1 - port,
    {
        let mut a = host.clone();
        push_char(&mut a, ':');
        push_decimal(&mut a, port as u64);
        out.push(a);
        port = port + 1;
    }
    out
}

proof fn lemma_ports_ordered(name: Seq<char>)
    ensures
        framework(name) matches Some(f) ==> f.first_port <= f.last_port < 65535,
{
    if framework(name) is Some {
        let i = choose|i: int| 0 <= i < frameworks().len() && (#[trigger] frameworks()[i]).name == name;
        assert(0 <= i < 5);
    }
}

/// The port after the framework's last benchmark port, where its control
/// routes are.
pub fn control_port(framework_name: &str) -> (r: u16)
    requires
        framework(framework_name@) is Some,
    ensures
        r == framework(framework_name@)->0.last_port + 1,
{
    let f = find(framework_name).unwrap();
    proof {
        lemma_ports_ordered(framework_name@);
    }
    f.last_port + 1
}

/// The name of the framework's server binary.
pub fn server_process_name(framework_name: &str) -> (r: String)
    ensures
        r@ == framework_name@ + ".server"@,
{
    let mut out = String::new();
    out.append(framework_name);
    out.append(".server");
    out
}

} // verus!

verus! {

/// Where the last `/` in `s` is, or -1.
pub open spec fn last_slash(s: Seq<char>) -> int
    decreases s.len(),
{
    if s.len() == 0 {
        -1
    } else if s.last() == '/' {
        s.len() - 1
    } else {
        last_slash(s.drop_last())
    }
}

/// What follows the last `/` of a path: the whole path when it has none.
pub open spec fn base_name_text(path: Seq<char>) -> Seq<char> {
    path.subrange(last_slash(path) + 1, path.len() as int)
}

proof fn lemma_last_slash(s: Seq<char>)
    ensures
        -1 <= last_slash(s) < s.len(),
    decreases s.len(),
{
    if s.len() > 0 && s.last() != '/' {
        lemma_last_slash(s.drop_last());
    }
}

/// The base name of a program's path.
pub fn base_name(path: &str) -> (r: String)
    ensures
        r@ == base_name_text(path@),
{
    let cs = crate::text::chars_of(path);
    let mut k: usize = cs.len();
    assert(cs@.subrange(0, k as int) =~= cs@);
    while k > 0 && cs[k - 1] != '/'
        invariant
            k <= cs@.len(),
            cs@ == path@,
            last_slash(cs@.subrange(0, k as int)) == last_slash(cs@),
        decreases k,
    {
        proof {
            assert(cs@.subrange(0, k as int).drop_last() =~= cs@.subrange(0, k - 1));
        }
        k = k - 1;
    }
    proof {
        assert(cs@.subrange(0, cs@.len() as int) =~= cs@);
        if k > 0 {
            assert(cs@.subrange(0, k as int).last() == cs@[k - 1]);
        }
    }
    let rest = crate::flags::slice_chars(&cs, k, cs.len());
    crate::text::string_of(&rest)
}

/// The pids of the processes, of those listed, whose name is `name`, in
/// the order listed.
pub open spec fn pids_named(ps: Seq<(i32, String)>, name: Seq<char>) -> Seq<i32>
    decreases ps.len(),
{
    if ps.len() == 0 {
        Seq::<i32>::empty()
    } else {
        pids_named(ps.drop_last(), name) + if ps.last().1@ == name {
            seq![ps.last().0]
        } else {
            Seq::<i32>::empty()
        }
    }
}

/// Why no one server process was found.
#[derive(Debug)]
pub enum FindError {
    /// No process has the server's name.
    NoProcess,
    /// Several do: the leftovers of earlier runs.
    Several(Vec<i32>),
}

/// The one process, of `processes` (pid and the base name of its program),
/// that runs the framework's server binary.
pub fn find_server_process(framework_name: &str, processes: &Vec<(i32, String)>) -> (r: Result<
    i32,
    FindError,
>)
    ensures
        ({
            let pids = pids_named(processes@, framework_name@ + ".server"@);
            match r {
                Ok(pid) => pids.len() == 1 && pid == pids[0],
                Err(FindError::NoProcess) => pids.len() == 0,
                Err(FindError::Several(v)) => pids.len() > 1 && v@ == pids,
            }
        }),
{
    let name = server_process_name(framework_name);
    let ghost target = framework_name@ + ".server"@;
    let mut pids: Vec<i32> = Vec::new();
    let mut i: usize = 0;
    while i < processes.len()
        invariant
            name@ == target,
            i <= processes@.len(),
            pids@ == pids_named(processes@.subrange(0, i as int), target),
        decreases processes@.len() - i,
    {
        proof {
            assert(processes@.subrange(0, i + 1).drop_last() =~= processes@.subrange(0, i as int));
        }
        if processes[i].1 == name {
            pids.push(processes[i].0);
        }
        i = i + 1;
    }
    proof {
        assert(processes@.subrange(0, processes@.len() as int) =~= processes@);
    }
    if pids.len() == 0 {
        Err(FindError::NoProcess)
    } else if pids.len() == 1 {
        Ok(pids[0])
    } else {
        Err(FindError::Several(pids))
    }
}

/// Why a pid is not the server's.
#[derive(Debug)]
pub enum VerifyError {
    /// It runs the program of this name.
    Other(String),
    /// No process has that pid.
    NoSuchProcess,
}

/// Where the first process with pid `pid` is listed, or the list's length.
pub open spec fn first_with_pid(ps: Seq<(i32, String)>, pid: i32) -> int
    decreases ps.len(),
{
    if ps.len() == 0 {
        0
    } else if ps[0].0 == pid {
        0
    } else {
        1 + first_with_pid(ps.drop_first(), pid)
    }
}

proof fn lemma_first_with_pid(ps: Seq<(i32, String)>, pid: i32, k: int)
    requires
        0 <= k <= ps.len(),
        forall|j: int| 0 <= j < k ==> (#[trigger] ps[j]).0 != pid,
        k == ps.len() || ps[k].0 == pid,
    ensures
        first_with_pid(ps, pid) == k,
    decreases ps.len(),
{
    if ps.len() > 0 && k > 0 {
        assert forall|j: int| 0 <= j < k - 1 implies (#[trigger] ps.drop_first()[j]).0 != pid by {
            assert(ps.drop_first()[j] == ps[j + 1]);
        }
        lemma_first_with_pid(ps.drop_first(), pid, k - 1);
    }
}

/// Checks that the process `pid`, the first of `processes` with that pid,
/// runs the framework's server binary.
pub fn verify_server_process(pid: i32, framework_name: &str, processes: &Vec<(i32, String)>) -> (r:
    Result<(), VerifyError>)
    ensures
        ({
            let k = first_with_pid(processes@, pid);
            match r {
                Ok(()) => k < processes@.len() && processes@[k].1@ == framework_name@
                    + ".server"@,
                Err(VerifyError::Other(n)) => k < processes@.len() && n@ == processes@[k].1@
                    && n@ != framework_name@ + ".server"@,
                Err(VerifyError::NoSuchProcess) => k == processes@.len(),
            }
        }),
{
    let want = server_process_name(framework_name);
    let mut i: usize = 0;
    while i < processes.len()
        invariant
            i <= processes@.len(),
            want@ == framework_name@ + ".server"@,
            forall|j: int| 0 <= j < i ==> (#[trigger] processes@[j]).0 != pid,
        decreases processes@.len() - i,
    {
        if processes[i].0 == pid {
            proof {
                lemma_first_with_pid(processes@, pid, i as int);
            }
            if processes[i].1 == want {
                return Ok(());
            } else {
                return Err(VerifyError::Other(processes[i].1.clone()));
            }
        }
        i = i + 1;
    }
    proof {
        lemma_first_with_pid(processes@, pid, i as int);
    }
    Err(VerifyError::NoSuchProcess)
}

/// The path every benchmark request goes to.
pub fn echo_path() -> (r: &'static str)
    ensures
        r@ == "/echo"@,
{
    "/echo"
}

/// Whether the framework's server serves `/debug/pprof/`: only a Go server
/// does.
pub fn has_pprof(framework_name: &str) -> (r: bool)
    ensures
        r == (match framework(framework_name@) {
            Some(f) => f.lang == "go"@,
            None => false,
        }),
{
    match find(framework_name) {
        Some(f) => str_eq(f.lang, "go"),
        None => false,
    }
}

/// Whether the server is sampled from this machine: `-ps=local`, or
/// `-ps=auto` with a server on this machine.
pub fn wants_local(mode: &str, host_is_local: bool) -> (r: bool)
    ensures
        r == (mode@ == "local"@ || (mode@ == "auto"@ && host_is_local)),
{
    str_eq(mode, "local") || (str_eq(mode, "auto") && host_is_local)
}

/// A host already as a URL carries it stays as it is: `url_host` on its own
/// result changes nothing.
pub proof fn law_url_host_idempotent(ip: Seq<char>)
    ensures
        url_host_text(url_host_text(ip)) == url_host_text(ip),
{
    let once = url_host_text(ip);
    if has_char(ip, ':') && !(ip.len() > 0 && ip[0] == '[') {
        assert(once[0] == '[');
    }
}

/// `nethttp`, the default framework, is one.
pub proof fn lemma_nethttp_known()
    ensures
        framework("nethttp"@) is Some,
{
    assert(frameworks()[4].name == "nethttp"@);
}

/// The frameworks' ports never meet: each framework has 50 benchmark
/// ports, and no port, benchmark or control (the one after the last
/// benchmark port), belongs to two frameworks.
pub proof fn law_ports_disjoint(a: Seq<char>, b: Seq<char>, port: int)
    requires
        framework(a) is Some,
        framework(b) is Some,
        a != b,
    ensures
        framework(a)->0.last_port - framework(a)->0.first_port + 1 == 50,
        !(framework(a)->0.first_port <= port <= framework(a)->0.last_port + 1
            && framework(b)->0.first_port <= port <= framework(b)->0.last_port + 1),
{
    let i = choose|i: int| 0 <= i < frameworks().len() && (#[trigger] frameworks()[i]).name == a;
    let j = choose|j: int| 0 <= j < frameworks().len() && (#[trigger] frameworks()[j]).name == b;
    assert(framework(a) == Some(frameworks()[i]));
    assert(framework(b) == Some(frameworks()[j]));
    assert(i != j);
    assert(0 <= i < 5 && 0 <= j < 5);
}

/// The ports each framework's server listens on, as the suite's
/// configuration gives them: `fasthttp` 10001 to 10050, `fib` 11001 to
/// 11050, `gin` 12001 to 12050, `nethttp` 13001 to 13050, `axum` 14001 to
/// 14050; the control port is the one after.
pub proof fn law_port_table()
    ensures
        framework("fasthttp"@) matches Some(f) && f.lang == "go"@ && f.first_port == 10001 && f.last_port == 10050,
        framework("fib"@) matches Some(f) && f.lang == "go"@ && f.first_port == 11001 && f.last_port == 11050,
        framework("gin"@) matches Some(f) && f.lang == "go"@ && f.first_port == 12001 && f.last_port == 12050,
        framework("nethttp"@) matches Some(f) && f.lang == "go"@ && f.first_port == 13001 && f.last_port == 13050,
        framework("axum"@) matches Some(f) && f.lang == "rust"@ && f.first_port == 14001 && f.last_port == 14050,
{
    lemma_names_distinct();
    assert(frameworks()[0].name == "axum"@);
    assert(frameworks()[1].name == "fasthttp"@);
    assert(frameworks()[2].name == "fib"@);
    assert(frameworks()[3].name == "gin"@);
    assert(frameworks()[4].name == "nethttp"@);
}

} // verus!
