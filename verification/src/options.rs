//! The options that the server runs with, built from its configuration.

use vstd::prelude::*;
use crate::config::{Config, Server};
use crate::ip::{lemma_from_full, spec_addr_text, spec_full_text, spec_ipv4_from};
use crate::table::{has_key, keys_distinct, lemma_find_key, lemma_put, lookup, put, Table};
use crate::text::{chars_of, decimal, ends_with, has_suffix, push_char, push_decimal};

verus! {

/// Every value of an alias or binding list is text.
pub open spec fn all_text(pairs: Seq<(String, Option<String>)>) -> bool {
    forall|i: int| 0 <= i < pairs.len() ==> (#[trigger] pairs[i]).1 is Some
}

/// The table that binding each pair in turn builds.
pub open spec fn spec_text_table(pairs: Seq<(String, Option<String>)>) -> Seq<
    (Seq<char>, Seq<char>),
>
    decreases pairs.len(),
{
    if pairs.len() == 0 {
        Seq::empty()
    } else {
        put(spec_text_table(pairs.drop_last()), pairs.last().0@, pairs.last().1->0@)
    }
}

/// The table of instances: each address bound to its ports, a later
/// instance with the same address replacing an earlier one.
pub open spec fn spec_instances(servers: Seq<Server>) -> Seq<(Seq<char>, Seq<u32>)>
    decreases servers.len(),
{
    if servers.len() == 0 {
        Seq::empty()
    } else {
        put(spec_instances(servers.drop_last()), servers.last().address@, servers.last().ports@)
    }
}

/// The message for a host name given twice.
pub open spec fn spec_duplicate_host_message(domain: Seq<char>) -> Seq<char> {
    "the hostname '"@ + domain + "' has been entered twice"@
}

/// Binds each of `domains` to `address`, failing on the first name that is
/// bound already.
pub open spec fn spec_add_hosts(
    t: Seq<(Seq<char>, Seq<char>)>,
    domains: Seq<String>,
    address: Seq<char>,
) -> Result<Seq<(Seq<char>, Seq<char>)>, Seq<char>>
    decreases domains.len(),
{
    if domains.len() == 0 {
        Ok(t)
    } else {
        match spec_add_hosts(t, domains.drop_last(), address) {
            Err(e) => Err(e),
            Ok(t2) => if has_key(t2, domains.last()@) {
                Err(spec_duplicate_host_message(domains.last()@))
            } else {
                Ok(put(t2, domains.last()@, address))
            },
        }
    }
}

/// The table of host names: each name of each instance bound to the
/// instance's address; a name given twice is an error.
pub open spec fn spec_hosts(servers: Seq<Server>) -> Result<Seq<(Seq<char>, Seq<char>)>, Seq<char>>
    decreases servers.len(),
{
    if servers.len() == 0 {
        Ok(Seq::empty())
    } else {
        match spec_hosts(servers.drop_last()) {
            Err(e) => Err(e),
            Ok(t) => match servers.last().hosts {
                Some(list) => spec_add_hosts(t, list@, servers.last().address@),
                None => Ok(t),
            },
        }
    }
}

/// The CGI bindings: those of the configuration, or else `py` run by
/// `python3`.
pub open spec fn spec_cgi_binds(bindings: Option<Vec<(String, Option<String>)>>) -> Seq<
    (Seq<char>, Seq<char>),
> {
    match bindings {
        Some(v) => spec_text_table(v@),
        None => seq![("py"@, "python3"@)],
    }
}

/// The links: the configured aliases, or none.
pub open spec fn spec_links(aliases: Option<Vec<(String, Option<String>)>>) -> Seq<
    (Seq<char>, Seq<char>),
> {
    match aliases {
        Some(v) => spec_text_table(v@),
        None => Seq::empty(),
    }
}

/// The text `address:port`.
pub open spec fn spec_combination(address: Seq<char>, port: u32) -> Seq<char> {
    address + seq![':'] + decimal(port as nat)
}

/// Every `address:port` text of the instances, instance by instance and port
/// by port.
pub open spec fn spec_address_combinations(instances: Seq<(Seq<char>, Seq<u32>)>) -> Seq<
    Seq<char>,
>
    decreases instances.len(),
{
    if instances.len() == 0 {
        Seq::empty()
    } else {
        spec_address_combinations(instances.drop_last()) + instances.last().1.map_values(
            |p: u32| spec_combination(instances.last().0, p),
        )
    }
}

/// What checking a directory name gives, from whether it exists and whether
/// it is a directory: the name with a trailing `/`, or the reason it is
/// refused.
pub open spec fn spec_verify_dir_format(dir: Seq<char>, exists: bool, is_dir: bool) -> Result<
    Seq<char>,
    Seq<char>,
> {
    if !exists {
        Err(dir + " is does not exist"@)
    } else if !is_dir {
        Err(dir + " is not a directory"@)
    } else if !ends_with(dir, "/"@) {
        Ok(dir + "/"@)
    } else {
        Ok(dir)
    }
}

/// Adding names keeps the table's keys distinct, binds each added name to
/// the address, and keeps every binding that was there.
proof fn lemma_add_hosts(t: Seq<(Seq<char>, Seq<char>)>, ds: Seq<String>, a: Seq<char>)
    requires
        keys_distinct(t),
    ensures
        spec_add_hosts(t, ds, a) matches Ok(t2) ==> {
            &&& keys_distinct(t2)
            &&& forall|k: int| 0 <= k < ds.len() ==> lookup(t2, (#[trigger] ds[k])@) == Some(a)
            &&& forall|n: Seq<char>| has_key(t, n) ==> #[trigger] lookup(t2, n) == lookup(t, n)
        },
    decreases ds.len(),
{
    if ds.len() > 0 {
        let d = ds.last()@;
        lemma_add_hosts(t, ds.drop_last(), a);
        match spec_add_hosts(t, ds.drop_last(), a) {
            Ok(t1) => {
                if !has_key(t1, d) {
                    let t2 = put(t1, d, a);
                    lemma_put(t1, d, a, d);
                    assert forall|k: int| 0 <= k < ds.len() implies lookup(t2, (#[trigger] ds[k])@)
                        == Some(a) by {
                        lemma_put(t1, d, a, ds[k]@);
                        if k < ds.len() - 1 {
                            assert(ds[k] == ds.drop_last()[k]);
                        }
                    }
                    assert forall|n: Seq<char>| has_key(t, n) implies #[trigger] lookup(t2, n)
                        == lookup(t, n) by {
                        lemma_find_key(t, n);
                        lemma_find_key(t1, n);
                        lemma_put(t1, d, a, n);
                    }
                }
            },
            Err(_) => {},
        }
    }
}

/// Each host name that an instance lists answers for that instance's
/// address, when no name is listed twice.
pub proof fn lemma_hosts_bind_addresses(servers: Seq<Server>)
    ensures
        spec_hosts(servers) matches Ok(t) ==> {
            &&& keys_distinct(t)
            &&& forall|i: int, k: int|
                0 <= i < servers.len() && servers[i].hosts is Some && 0 <= k
                    < servers[i].hosts->0@.len() ==> lookup(
                    t,
                    (#[trigger] servers[i].hosts->0@[k])@,
                ) == Some(servers[i].address@)
        },
    decreases servers.len(),
{
    if servers.len() > 0 {
        let last = servers.last();
        lemma_hosts_bind_addresses(servers.drop_last());
        match spec_hosts(servers.drop_last()) {
            Ok(t) => {
                match last.hosts {
                    Some(list) => {
                        lemma_add_hosts(t, list@, last.address@);
                        if spec_add_hosts(t, list@, last.address@) is Ok {
                            let t2 = spec_add_hosts(t, list@, last.address@)->Ok_0;
                            assert forall|i: int, k: int|
                                0 <= i < servers.len() && servers[i].hosts is Some && 0 <= k
                                    < servers[i].hosts->0@.len() implies lookup(
                                t2,
                                (#[trigger] servers[i].hosts->0@[k])@,
                            ) == Some(servers[i].address@) by {
                                if i < servers.len() - 1 {
                                    assert(servers[i] == servers.drop_last()[i]);
                                    let n = servers[i].hosts->0@[k]@;
                                    lemma_find_key(t, n);
                                }
                            }
                        }
                    },
                    None => {
                        assert forall|i: int, k: int|
                            0 <= i < servers.len() && servers[i].hosts is Some && 0 <= k
                                < servers[i].hosts->0@.len() implies lookup(
                            t,
                            (#[trigger] servers[i].hosts->0@[k])@,
                        ) == Some(servers[i].address@) by {
                            assert(servers[i] == servers.drop_last()[i]);
                        }
                    },
                }
            },
            Err(_) => {},
        }
    }
}

/// `s` is an instance's address joined with one of its ports.
pub open spec fn is_combination_of(instances: Seq<(Seq<char>, Seq<u32>)>, s: Seq<char>) -> bool {
    exists|i: int, k: int|
        #![trigger instances[i].1[k]]
        0 <= i < instances.len() && 0 <= k < instances[i].1.len() && s == spec_combination(
            instances[i].0,
            instances[i].1[k],
        )
}

/// Every listening address is an instance's address joined with one of its
/// ports.
pub proof fn lemma_address_combinations(instances: Seq<(Seq<char>, Seq<u32>)>)
    ensures
        forall|j: int|
            0 <= j < spec_address_combinations(instances).len() ==> is_combination_of(
                instances,
                #[trigger] spec_address_combinations(instances)[j],
            ),
    decreases instances.len(),
{
    if instances.len() > 0 {
        let prev = instances.drop_last();
        lemma_address_combinations(prev);
        let a = spec_address_combinations(prev);
        let last = instances.last();
        let all = spec_address_combinations(instances);
        assert forall|j: int| 0 <= j < all.len() implies is_combination_of(
            instances,
            #[trigger] all[j],
        ) by {
            if j < a.len() {
                assert(all[j] == a[j]);
                assert(is_combination_of(prev, a[j]));
                let (i, k) = choose|i: int, k: int|
                    #![trigger prev[i].1[k]]
                    0 <= i < prev.len() && 0 <= k < prev[i].1.len() && a[j] == spec_combination(
                        prev[i].0,
                        prev[i].1[k],
                    );
                assert(prev[i] == instances[i]);
                assert(instances[i].1[k] == prev[i].1[k]);
            } else {
                let k = j - a.len();
                assert(all[j] == spec_combination(last.0, last.1[k]));
                assert(last == instances[instances.len() - 1]);
                assert(instances[instances.len() - 1].1[k] == last.1[k]);
            }
        }
    }
}

/// An instance whose address is written as four octets listens on
/// addresses that read back as that address with the port.
pub proof fn lemma_combination_reads_back(a: u8, b: u8, c: u8, d: u8, port: u32)
    ensures
        spec_ipv4_from(spec_combination(spec_addr_text((a, b, c, d, 0)), port)) == Ok::<
            _,
            Seq<char>,
        >((a, b, c, d, port)),
{
    assert(spec_combination(spec_addr_text((a, b, c, d, 0)), port) == spec_full_text(
        (a, b, c, d, port),
    ));
    lemma_from_full((a, b, c, d, port));
}

/// An accepted directory name ends with `/`.
pub proof fn lemma_verify_dir_format(dir: Seq<char>, exists: bool, is_dir: bool)
    ensures
        spec_verify_dir_format(dir, exists, is_dir) matches Ok(s) ==> ends_with(s, "/"@),
{
    reveal_strlit("/");
    if exists && is_dir && !ends_with(dir, "/"@) {
        assert((dir + "/"@).skip((dir + "/"@).len() - 1) =~= "/"@);
    }
}

/// The options that the server runs with.
pub struct Opts {
    pub path: String,
    pub upload: String,
    pub index: String,
    pub not_found: String,
    pub links: Table<String>,
    pub instances: Table<Vec<u32>>,
    pub cgi_binds: Table<String>,
    pub hosts: Table<String>,
}

/// A copy of `v`.
fn copy_ports(v: &Vec<u32>) -> (r: Vec<u32>)
    ensures
        r@ == v@,
{
    let mut r: Vec<u32> = Vec::new();
    let mut i: usize = 0;
    while i < v.len()
        invariant
            i <= v@.len(),
            r@ == v@.take(i as int),
        decreases v.len() - i,
    {
        r.push(v[i]);
        i = i + 1;
        assert(r@ =~= v@.take(i as int));
    }
    assert(v@.take(v@.len() as int) =~= v@);
    r
}

/// Builds a table from aliases or bindings whose values are all text.
fn map_to_hashmap(map: &Vec<(String, Option<String>)>) -> (r: Table<String>)
    requires
        all_text(map@),
    ensures
        r@ == spec_text_table(map@),
{
    let mut t: Table<String> = Table::new();
    let mut i: usize = 0;
    assert(map@.take(0) =~= Seq::<(String, Option<String>)>::empty());
    while i < map.len()
        invariant
            i <= map@.len(),
            all_text(map@),
            t@ == spec_text_table(map@.take(i as int)),
        decreases map.len() - i,
    {
        let e = &map[i];
        assert(map@.take(i + 1).drop_last() =~= map@.take(i as int));
        assert(map@.take(i + 1).last() == map@[i as int]);
        assert(map@[i as int].1 is Some);
        match &e.1 {
            Some(v) => {
                t.insert(e.0.as_str(), v.clone());
            },
            None => {},
        }
        i = i + 1;
    }
    assert(map@.take(map@.len() as int) =~= map@);
    t
}

/// Checks a directory name, given whether it exists and whether it is a
/// directory; an accepted name ends with `/`.
pub fn verify_dir_format(dir: &str, exists: bool, is_dir: bool) -> (r: Result<String, String>)
    ensures
        match r {
            Ok(s) => spec_verify_dir_format(dir@, exists, is_dir) == Ok::<_, Seq<char>>(s@),
            Err(e) => spec_verify_dir_format(dir@, exists, is_dir) == Err::<Seq<char>, _>(e@),
        },
{
    let mut s = String::from_str(dir);
    if !exists {
        s.append(" is does not exist");
        return Err(s);
    }
    if !is_dir {
        s.append(" is not a directory");
        return Err(s);
    }
    let v = chars_of(dir);
    if !has_suffix(&v, "/") {
        s.append("/");
        Ok(s)
    } else {
        Ok(s)
    }
}

/// The first fault of a configuration, given what the filesystem says of
/// its site directory (`path_exists`, `path_is_dir`) and, from inside the
/// site directory, of its upload directory: the site directory is checked,
/// then the upload directory, then the host names; none when all are fine.
pub open spec fn spec_config_error(
    c: Config,
    path_exists: bool,
    path_is_dir: bool,
    upload_exists: bool,
    upload_is_dir: bool,
) -> Option<Seq<char>> {
    match spec_verify_dir_format(c.path@, path_exists, path_is_dir) {
        Err(e) => Some(e),
        Ok(_) => match spec_verify_dir_format(c.uploads@, upload_exists, upload_is_dir) {
            Err(e) => Some(e),
            Ok(_) => match spec_hosts(c.servers.instance@) {
                Err(e) => Some(e),
                Ok(_) => None,
            },
        },
    }
}

impl Opts {
    /// Builds the options from a configuration and what the filesystem says
    /// of its directories (the upload directory as seen from inside the
    /// site directory). Fails when the site or the upload directory is
    /// missing or not a directory, or when a host name is given twice.
    pub fn from_config(
        c: Config,
        path_exists: bool,
        path_is_dir: bool,
        upload_exists: bool,
        upload_is_dir: bool,
    ) -> (r: Result<Self, String>)
        requires
            c.servers.aliases matches Some(v) ==> all_text(v@),
            c.cgi.bindings matches Some(v) ==> all_text(v@),
        ensures
            match r {
                Ok(o) => {
                    &&& spec_config_error(c, path_exists, path_is_dir, upload_exists, upload_is_dir)
                        is None
                    &&& spec_verify_dir_format(c.path@, path_exists, path_is_dir) == Ok::<
                        _,
                        Seq<char>,
                    >(o.path@)
                    &&& spec_verify_dir_format(c.uploads@, upload_exists, upload_is_dir) == Ok::<
                        _,
                        Seq<char>,
                    >(o.upload@)
                    &&& spec_hosts(c.servers.instance@) == Ok::<_, Seq<char>>(o.hosts@)
                    &&& o.index == c.servers.index
                    &&& o.not_found == c.servers.not_found
                    &&& o.links@ == spec_links(c.servers.aliases)
                    &&& o.instances@ == spec_instances(c.servers.instance@)
                    &&& o.cgi_binds@ == spec_cgi_binds(c.cgi.bindings)
                },
                Err(e) => spec_config_error(
                    c,
                    path_exists,
                    path_is_dir,
                    upload_exists,
                    upload_is_dir,
                ) == Some(e@),
            },
    {
        let path = match verify_dir_format(c.path.as_str(), path_exists, path_is_dir) {
            Ok(v) => v,
            Err(e) => return Err(e),
        };
        let upload = match verify_dir_format(c.uploads.as_str(), upload_exists, upload_is_dir) {
            Ok(v) => v,
            Err(e) => return Err(e),
        };
        let servers = &c.servers.instance;
        let mut instances: Table<Vec<u32>> = Table::new();
        let mut i: usize = 0;
        assert(servers@.take(0) =~= Seq::<Server>::empty());
        while i < servers.len()
            invariant
                i <= servers@.len(),
                instances@ == spec_instances(servers@.take(i as int)),
            decreases servers.len() - i,
        {
            assert(servers@.take(i + 1).drop_last() =~= servers@.take(i as int));
            let s = &servers[i];
            instances.insert(s.address.as_str(), copy_ports(&s.ports));
            i = i + 1;
        }
        assert(servers@.take(servers@.len() as int) =~= servers@);
        let links = match &c.servers.aliases {
            Some(v) => map_to_hashmap(v),
            None => Table::new(),
        };
        let cgi_binds = match &c.cgi.bindings {
            Some(v) => map_to_hashmap(v),
            None => {
                let mut default: Table<String> = Table::new();
                default.insert("py", String::from_str("python3"));
                assert(default@ =~= seq![("py"@, "python3"@)]);
                default
            },
        };
        let mut hosts: Table<String> = Table::new();
        let mut j: usize = 0;
        while j < servers.len()
            invariant
                j <= servers@.len(),
                servers@ == c.servers.instance@,
                spec_config_error(c, path_exists, path_is_dir, upload_exists, upload_is_dir) == (
                match spec_hosts(c.servers.instance@) {
                    Err(e) => Some(e),
                    Ok(_) => None::<Seq<char>>,
                }),
                spec_hosts(servers@.take(j as int)) == Ok::<_, Seq<char>>(hosts@),
            decreases servers.len() - j,
        {
            assert(servers@.take(j + 1).drop_last() =~= servers@.take(j as int));
            let instance = &servers[j];
            match &instance.hosts {
                Some(list) => {
                    let ghost start = hosts@;
                    let mut k: usize = 0;
                    assert(list@.take(0) =~= Seq::<String>::empty());
                    while k < list.len()
                        invariant
                            k <= list@.len(),
                            servers@ == c.servers.instance@,
                        spec_config_error(c, path_exists, path_is_dir, upload_exists, upload_is_dir) == (
                        match spec_hosts(c.servers.instance@) {
                            Err(e) => Some(e),
                            Ok(_) => None::<Seq<char>>,
                        }),
                            j < servers@.len(),
                            spec_hosts(servers@.take(j as int)) == Ok::<_, Seq<char>>(start),
                            servers@[j as int].address == instance.address,
                            servers@[j as int].hosts == Some(*list),
                            spec_add_hosts(start, list@.take(k as int), instance.address@) == Ok::<
                                _,
                                Seq<char>,
                            >(hosts@),
                        decreases list.len() - k,
                    {
                        assert(list@.take(k + 1).drop_last() =~= list@.take(k as int));
                        let domain = &list[k];
                        if hosts.contains_key(domain.as_str()) {
                            let mut msg = String::from_str("the hostname '");
                            msg.append(domain.as_str());
                            msg.append("' has been entered twice");
                            proof {
                                assert(spec_add_hosts(start, list@.take(k + 1), instance.address@)
                                    == Err::<Seq<(Seq<char>, Seq<char>)>, _>(msg@));
                                lemma_add_hosts_err(start, list@, k + 1, instance.address@);
                                assert(list@.take(list@.len() as int) =~= list@);
                                assert(servers@.take(j + 1).last() == servers@[j as int]);
                                assert(servers@.take(j + 1).drop_last() =~= servers@.take(
                                    j as int,
                                ));
                                assert(spec_add_hosts(start, list@, instance.address@) == Err::<
                                    Seq<(Seq<char>, Seq<char>)>,
                                    _,
                                >(msg@));
                                assert(spec_hosts(servers@.take(j + 1)) == Err::<
                                    Seq<(Seq<char>, Seq<char>)>,
                                    _,
                                >(msg@));
                                lemma_hosts_err(servers@, j + 1);
                                assert(servers@.take(servers@.len() as int) =~= servers@);
                            }
                            return Err(msg);
                        }
                        hosts.insert(domain.as_str(), instance.address.clone());
                        k = k + 1;
                    }
                    assert(list@.take(list@.len() as int) =~= list@);
                },
                None => {},
            }
            j = j + 1;
        }
        assert(servers@.take(servers@.len() as int) =~= servers@);
        Ok(
            Opts {
                path,
                index: c.servers.index,
                links,
                not_found: c.servers.not_found,
                instances,
                cgi_binds,
                upload,
                hosts,
            },
        )
    }

    /// Every `address:port` combination of every instance.
    pub fn address_combinations(&self) -> (r: Vec<String>)
        ensures
            r@.map_values(|s: String| s@) == spec_address_combinations(self.instances@),
    {
        let mut r: Vec<String> = Vec::new();
        let n = self.instances.len();
        let mut i: usize = 0;
        assert(self.instances@.take(0) =~= Seq::<(Seq<char>, Seq<u32>)>::empty());
        assert(r@.map_values(|s: String| s@) =~= Seq::<Seq<char>>::empty());
        while i < n
            invariant
                n == self.instances@.len(),
                i <= n,
                r@.map_values(|s: String| s@) == spec_address_combinations(
                    self.instances@.take(i as int),
                ),
            decreases n - i,
        {
            let addr = self.instances.key_at(i);
            let ports = self.instances.value_at(i);
            let ghost before = r@.map_values(|s: String| s@);
            let ghost entry = self.instances@[i as int];
            let mut k: usize = 0;
            while k < ports.len()
                invariant
                    k <= ports@.len(),
                    addr@ == entry.0,
                    ports@ == entry.1,
                    r@.map_values(|s: String| s@) == before + entry.1.take(k as int).map_values(
                        |p: u32| spec_combination(entry.0, p),
                    ),
                decreases ports.len() - k,
            {
                let mut s = String::new();
                crate::text::append_chars(&mut s, addr);
                push_char(&mut s, ':');
                push_decimal(&mut s, ports[k] as u64);
                let ghost old_r = r@;
                assert(s@ == spec_combination(entry.0, ports@[k as int]));
                r.push(s);
                assert(r@.map_values(|s: String| s@) =~= old_r.map_values(|s: String| s@).push(
                    spec_combination(entry.0, ports@[k as int]),
                ));
                assert(entry.1.take(k + 1).map_values(|p: u32| spec_combination(entry.0, p))
                    =~= entry.1.take(k as int).map_values(
                    |p: u32| spec_combination(entry.0, p),
                ).push(spec_combination(entry.0, ports@[k as int])));
                k = k + 1;
            }
            assert(entry.1.take(ports@.len() as int) =~= entry.1);
            assert(self.instances@.take(i + 1).drop_last() =~= self.instances@.take(i as int));
            i = i + 1;
        }
        assert(self.instances@.take(n as int) =~= self.instances@);
        r
    }
}

/// Once adding names has failed, adding more names fails the same way.
proof fn lemma_add_hosts_err(
    t: Seq<(Seq<char>, Seq<char>)>,
    domains: Seq<String>,
    k: int,
    address: Seq<char>,
)
    requires
        0 <= k <= domains.len(),
        spec_add_hosts(t, domains.take(k), address) is Err,
    ensures
        spec_add_hosts(t, domains, address) == spec_add_hosts(t, domains.take(k), address),
    decreases domains.len() - k,
{
    if k < domains.len() {
        assert(domains.take(k + 1).drop_last() =~= domains.take(k));
        lemma_add_hosts_err(t, domains, k + 1, address);
    } else {
        assert(domains.take(k) =~= domains);
    }
}

/// Once the host table of the first `k` instances has failed, the whole
/// table fails the same way.
proof fn lemma_hosts_err(servers: Seq<Server>, k: int)
    requires
        0 <= k <= servers.len(),
        spec_hosts(servers.take(k)) is Err,
    ensures
        spec_hosts(servers) == spec_hosts(servers.take(k)),
    decreases servers.len() - k,
{
    if k < servers.len() {
        assert(servers.take(k + 1).drop_last() =~= servers.take(k));
        lemma_hosts_err(servers, k + 1);
    } else {
        assert(servers.take(k) =~= servers);
    }
}

} // verus!
