//! The server's command line: the port it listens on and the map it plays.
use vstd::prelude::*;
use vstd::string::StringSliceAdditionalSpecFns;

verus! {

/// The port the server listens on when none is given.
pub const DEFAULT_PORT: u16 = 33200;

/// The maps a server can play.
#[derive(Clone, Copy, Debug, PartialEq, Eq, Structural)]
pub enum MapType {
    AsteroidMap,
}

/// The map named `name` on the command line, if there is one.
pub open spec fn map_of_name(name: Seq<char>) -> Option<MapType> {
    if name == "asteroid"@ {
        Some(MapType::AsteroidMap)
    } else {
        None
    }
}

/// What is wrong with a command line.
#[derive(Clone, Debug, PartialEq, Eq)]
pub enum ArgumentError {
    /// `-p` or `--port` came last, with no port after it.
    MissingPort,
    /// The port given is not a number from 0 to 65535.
    InvalidPort(String),
    /// `-m` or `--map` came last, with no map after it.
    MissingMap,
    /// The map given is not one the server knows.
    InvalidMap(String),
    /// An argument that is not an option.
    UnknownArgument(String),
}

/// A command line error, with its argument as characters.
pub ghost enum ArgError {
    MissingPort,
    InvalidPort(Seq<char>),
    MissingMap,
    InvalidMap(Seq<char>),
    UnknownArgument(Seq<char>),
}

impl View for ArgumentError {
    type V = ArgError;

    open spec fn view(&self) -> ArgError {
        match self {
            ArgumentError::MissingPort => ArgError::MissingPort,
            ArgumentError::InvalidPort(s) => ArgError::InvalidPort(s@),
            ArgumentError::MissingMap => ArgError::MissingMap,
            ArgumentError::InvalidMap(s) => ArgError::InvalidMap(s@),
            ArgumentError::UnknownArgument(s) => ArgError::UnknownArgument(s@),
        }
    }
}

impl MapType {
    /// Reads a map name: `asteroid` is the asteroid map, anything else is an error that
    /// holds the name.
    pub fn try_from(val: &str) -> (res: Result<MapType, ArgumentError>)
        ensures
            match map_of_name(val@) {
                Some(m) => res == Ok::<MapType, ArgumentError>(m),
                None => res matches Err(e) && e@ == ArgError::InvalidMap(val@),
            },
    {
        let name = val.to_owned();
        let asteroid = "asteroid".to_owned();
        if name == asteroid {
            Ok(MapType::AsteroidMap)
        } else {
            Err(ArgumentError::InvalidMap(name))
        }
    }
}

/// How the server is set up: its port and its map.
#[derive(Clone, Copy, Debug, PartialEq, Eq, Structural)]
pub struct ServerConfiguration {
    pub port: u16,
    pub map: MapType,
}

impl Default for ServerConfiguration {
    /// The default port and the asteroid map.
    fn default() -> (res: ServerConfiguration)
        ensures
            res == default_configuration(),
    {
        ServerConfiguration { port: DEFAULT_PORT, map: MapType::AsteroidMap }
    }
}

/// The configuration of a server started with no options.
pub open spec fn default_configuration() -> ServerConfiguration {
    ServerConfiguration { port: DEFAULT_PORT, map: MapType::AsteroidMap }
}

/// Whether `c` is an ASCII decimal digit.
pub open spec fn is_digit(c: char) -> bool {
    '0' <= c <= '9'
}

/// The number that a string of decimal digits writes.
pub open spec fn digits_value(s: Seq<char>) -> nat
    decreases s.len(),
{
    if s.len() == 0 {
        0
    } else {
        digits_value(s.drop_last()) * 10 + (s.last() as nat - '0' as nat) as nat
    }
}

/// The digits of a number as `u16::from_str` reads them: the text after one optional `+`.
pub open spec fn unsigned_digits(s: Seq<char>) -> Seq<char> {
    if s.len() > 0 && s[0] == '+' {
        s.skip(1)
    } else {
        s
    }
}

/// A port as `u16::from_str` reads it: an optional `+` and then one or more decimal
/// digits, leading zeros allowed, whose value is at most 65535.
pub open spec fn port_of_text(s: Seq<char>) -> Option<u16> {
    let d = unsigned_digits(s);
    if d.len() > 0 && (forall|i: int| 0 <= i < d.len() ==> #[trigger] is_digit(d[i]))
        && digits_value(d) <= u16::MAX {
        Some(digits_value(d) as u16)
    } else {
        None
    }
}

/// Appending a digit never makes the value smaller.
proof fn lemma_digits_value_grows(s: Seq<char>, k: int)
    requires
        0 <= k <= s.len(),
        forall|i: int| 0 <= i < s.len() ==> #[trigger] is_digit(s[i]),
    ensures
        digits_value(s.take(k)) <= digits_value(s),
    decreases s.len() - k,
{
    if k < s.len() {
        lemma_digits_value_grows(s, k + 1);
        assert(s.take(k + 1).drop_last() =~= s.take(k));
    } else {
        assert(s.take(k) =~= s);
    }
}

/// Reads a port number the way `u16::from_str` does.
pub fn parse_port(text: &str) -> (res: Option<u16>)
    ensures
        res == port_of_text(text@),
{
    broadcast use vstd::string::is_ascii_spec_bytes;

    let ghost s = text@;
    if !text.is_ascii() {
        proof {
            let d = unsigned_digits(s);
            if port_of_text(s) is Some {
                assert forall|i: int| 0 <= i < s.len() implies '\0' <= #[trigger] s[i] <= '\u{7f}' by {
                    if s.len() > 0 && s[0] == '+' {
                        if i > 0 {
                            assert(is_digit(d[i - 1]));
                        }
                    } else {
                        assert(is_digit(d[i]));
                    }
                }
                assert(vstd::utf8::is_ascii_chars(s));
            }
        }
        return None;
    }
    let bytes = text.as_bytes();
    assert(bytes@ == text.spec_bytes());
    assert(bytes@.len() == s.len());
    let ghost d = unsigned_digits(s);
    let start: usize = if bytes.len() > 0 && bytes[0] == 43u8 {
        1
    } else {
        0
    };
    proof {
        if s.len() > 0 {
            assert(bytes@[0] == s[0] as u8);
            assert((s[0] == '+') <==> (bytes@[0] == 43u8));
        }
        assert(d =~= s.skip(start as int));
    }
    if start == bytes.len() {
        return None;
    }
    let mut value: u32 = 0;
    let mut i: usize = start;
    while i < bytes.len()
        invariant
            s == text@,
            d == unsigned_digits(s),
            start <= i <= bytes@.len(),
            start < bytes@.len(),
            bytes@.len() == s.len(),
            bytes@ =~= Seq::new(s.len(), |j: int| s[j] as u8),
            vstd::utf8::is_ascii_chars(s),
            d =~= s.skip(start as int),
            forall|j: int| 0 <= j < i - start ==> #[trigger] is_digit(d[j]),
            value == digits_value(d.take(i - start)),
            value <= u16::MAX,
        decreases bytes@.len() - i,
    {
        let c = bytes[i];
        assert(c == s[i as int] as u8);
        assert(d[i - start] == s[i as int]);
        assert((s[i as int] as int) < 128);
        if c < 48u8 || c > 57u8 {
            assert(!is_digit(d[i - start]));
            return None;
        }
        assert(is_digit(d[i - start]));
        assert(d.take(i - start + 1).drop_last() =~= d.take(i - start));
        assert(d.take(i - start + 1).last() == d[i - start]);
        value = value * 10 + (c - 48u8) as u32;
        assert(value == digits_value(d.take(i - start + 1)));
        if value > 65535u32 {
            proof {
                if forall|j: int| 0 <= j < d.len() ==> #[trigger] is_digit(d[j]) {
                    lemma_digits_value_grows(d, i - start + 1);
                }
            }
            return None;
        }
        i = i + 1;
    }
    assert(d.take(i - start) =~= d);
    Some(value as u16)
}

/// The characters of each argument.
pub open spec fn args_view(args: Seq<String>) -> Seq<Seq<char>> {
    args.map_values(|a: String| a@)
}

/// Whether an argument asks for a port.
pub open spec fn is_port_flag(a: Seq<char>) -> bool {
    a == "-p"@ || a == "--port"@
}

/// Whether an argument asks for a map.
pub open spec fn is_map_flag(a: Seq<char>) -> bool {
    a == "-m"@ || a == "--map"@
}

/// Applies the options `args` to `cfg` from left to right: `-p`/`--port` and
/// `-m`/`--map` each take the next argument as their value, a later option overriding an
/// earlier one; the first error stops the reading.
pub open spec fn apply_args(args: Seq<Seq<char>>, cfg: ServerConfiguration) -> Result<
    ServerConfiguration,
    ArgError,
>
    decreases args.len(),
{
    if args.len() == 0 {
        Ok(cfg)
    } else if is_port_flag(args[0]) {
        if args.len() < 2 {
            Err(ArgError::MissingPort)
        } else {
            match port_of_text(args[1]) {
                Some(p) => apply_args(args.skip(2), ServerConfiguration { port: p, ..cfg }),
                None => Err(ArgError::InvalidPort(args[1])),
            }
        }
    } else if is_map_flag(args[0]) {
        if args.len() < 2 {
            Err(ArgError::MissingMap)
        } else {
            match map_of_name(args[1]) {
                Some(m) => apply_args(args.skip(2), ServerConfiguration { map: m, ..cfg }),
                None => Err(ArgError::InvalidMap(args[1])),
            }
        }
    } else {
        Err(ArgError::UnknownArgument(args[0]))
    }
}

/// The options of a command line: every argument after the program's name.
pub open spec fn command_options(args: Seq<String>) -> Seq<Seq<char>> {
    if args.len() == 0 {
        Seq::empty()
    } else {
        args_view(args).skip(1)
    }
}

/// The configuration a command line asks for, starting from the default one.
pub open spec fn configuration_of(args: Seq<String>) -> Result<ServerConfiguration, ArgError> {
    apply_args(command_options(args), default_configuration())
}

/// Reads the server's configuration from its command line, whose first argument is the
/// program's name.
pub fn parse_args(args: &Vec<String>) -> (res: Result<ServerConfiguration, ArgumentError>)
    ensures
        match configuration_of(args@) {
            Ok(c) => res == Ok::<ServerConfiguration, ArgumentError>(c),
            Err(e) => res matches Err(x) && x@ == e,
        },
{
    let ghost all = args_view(args@);
    let mut cfg = ServerConfiguration::default();
    if args.len() == 0 {
        return Ok(cfg);
    }
    let port_short = "-p".to_owned();
    let port_long = "--port".to_owned();
    let map_short = "-m".to_owned();
    let map_long = "--map".to_owned();
    let mut i: usize = 1;
    assert(all.skip(1) =~= command_options(args@));
    while i < args.len()
        invariant
            1 <= i <= args@.len(),
            all == args_view(args@),
            port_short@ == "-p"@,
            port_long@ == "--port"@,
            map_short@ == "-m"@,
            map_long@ == "--map"@,
            configuration_of(args@) == apply_args(all.skip(i as int), cfg),
        decreases args@.len() - i,
    {
        let ghost rest = all.skip(i as int);
        assert(rest[0] == args@[i as int]@);
        let a = &args[i];
        if *a == port_short || *a == port_long {
            if i + 1 >= args.len() {
                return Err(ArgumentError::MissingPort);
            }
            let v = &args[i + 1];
            assert(rest[1] == v@);
            assert(rest.skip(2) =~= all.skip(i + 2));
            match parse_port(v.as_str()) {
                Some(p) => {
                    cfg.port = p;
                },
                None => {
                    return Err(ArgumentError::InvalidPort(v.clone()));
                },
            }
            i = i + 2;
        } else if *a == map_short || *a == map_long {
            if i + 1 >= args.len() {
                return Err(ArgumentError::MissingMap);
            }
            let v = &args[i + 1];
            assert(rest[1] == v@);
            assert(rest.skip(2) =~= all.skip(i + 2));
            match MapType::try_from(v.as_str()) {
                Ok(m) => {
                    cfg.map = m;
                },
                Err(e) => {
                    return Err(e);
                },
            }
            i = i + 2;
        } else {
            return Err(ArgumentError::UnknownArgument(a.clone()));
        }
    }
    assert(all.skip(i as int).len() == 0);
    Ok(cfg)
}

/// Arguments made of whole options: each flag for a port or a map followed by its value.
pub open spec fn whole_options(a: Seq<Seq<char>>) -> bool {
    &&& a.len() % 2 == 0
    &&& forall|i: int|
        0 <= i < a.len() && i % 2 == 0 ==> is_port_flag(#[trigger] a[i]) || is_map_flag(a[i])
}

/// Options are read one after the other to the end: reading whole options `a` and then
/// `b` gives what reading `b` gives on the configuration `a` leaves, or the first error
/// of `a`.
pub proof fn lemma_options_read_in_turn(
    a: Seq<Seq<char>>,
    b: Seq<Seq<char>>,
    cfg: ServerConfiguration,
)
    requires
        whole_options(a),
    ensures
        apply_args(a + b, cfg) == match apply_args(a, cfg) {
            Ok(c) => apply_args(b, c),
            Err(e) => Err(e),
        },
    decreases a.len(),
{
    if a.len() == 0 {
        assert(a + b =~= b);
    } else {
        assert(is_port_flag(a[0]) || is_map_flag(a[0]));
        let ab = a + b;
        assert(ab[0] == a[0] && ab[1] == a[1]);
        assert(ab.skip(2) =~= a.skip(2) + b);
        let rest = a.skip(2);
        assert forall|i: int| 0 <= i < rest.len() && i % 2 == 0 implies is_port_flag(
            #[trigger] rest[i],
        ) || is_map_flag(rest[i]) by {
            assert(rest[i] == a[i + 2]);
            assert((i + 2) % 2 == 0);
        }
        if is_port_flag(a[0]) {
            match port_of_text(a[1]) {
                Some(p) => lemma_options_read_in_turn(
                    rest,
                    b,
                    ServerConfiguration { port: p, ..cfg },
                ),
                None => {},
            }
        } else {
            match map_of_name(a[1]) {
                Some(m) => lemma_options_read_in_turn(
                    rest,
                    b,
                    ServerConfiguration { map: m, ..cfg },
                ),
                None => {},
            }
        }
    }
}

/// The four flags are told apart: `-p` and `--port` ask for a port, `-m` and `--map` for
/// a map, and none asks for both.
proof fn lemma_flags_distinct()
    ensures
        is_port_flag("-p"@) && !is_map_flag("-p"@),
        is_map_flag("-m"@) && !is_port_flag("-m"@),
{
    reveal_strlit("-p");
    reveal_strlit("-m");
    reveal_strlit("--port");
    reveal_strlit("--map");
    assert("-p"@.len() == 2 && "--map"@.len() == 5 && "--port"@.len() == 6);
    assert("-p"@[1] == 'p' && "-m"@[1] == 'm');
    assert("-p"@ != "-m"@);
    assert("-p"@ != "--map"@);
    assert("-m"@ != "-p"@);
    assert("-m"@ != "--port"@);
}

/// A valid port option sets the port to its value and a valid map option the map, and
/// the options that follow are still read: a port and a map given in either order, with
/// any arguments after them, give the same result.
pub proof fn lemma_port_and_map_commute(
    port: Seq<char>,
    map: Seq<char>,
    rest: Seq<Seq<char>>,
    cfg: ServerConfiguration,
)
    requires
        port_of_text(port) is Some,
        map_of_name(map) is Some,
    ensures
        apply_args(seq!["-p"@, port, "-m"@, map] + rest, cfg) == apply_args(
            seq!["-m"@, map, "-p"@, port] + rest,
            cfg,
        ),
        apply_args(seq!["-p"@, port, "-m"@, map] + rest, cfg) == apply_args(
            rest,
            ServerConfiguration {
                port: port_of_text(port).unwrap(),
                map: map_of_name(map).unwrap(),
            },
        ),
{
    lemma_flags_distinct();
    let pm = seq!["-p"@, port, "-m"@, map];
    let mp = seq!["-m"@, map, "-p"@, port];
    assert(whole_options(pm));
    assert(whole_options(mp));
    lemma_options_read_in_turn(pm, rest, cfg);
    lemma_options_read_in_turn(mp, rest, cfg);
    let p = port_of_text(port).unwrap();
    let m = map_of_name(map).unwrap();
    assert(pm.skip(2) =~= seq!["-m"@, map]);
    assert(seq!["-m"@, map].skip(2) =~= Seq::<Seq<char>>::empty());
    assert(mp.skip(2) =~= seq!["-p"@, port]);
    assert(seq!["-p"@, port].skip(2) =~= Seq::<Seq<char>>::empty());
    let none = Seq::<Seq<char>>::empty();
    let both = ServerConfiguration { port: p, map: m };
    assert(apply_args(none, both) == Ok::<ServerConfiguration, ArgError>(both));
    let only_m = seq!["-m"@, map];
    let only_p = seq!["-p"@, port];
    assert(only_m[0] == "-m"@ && only_m[1] == map);
    assert(only_p[0] == "-p"@ && only_p[1] == port);
    assert(apply_args(only_m, ServerConfiguration { port: p, ..cfg }) == apply_args(none, both));
    assert(apply_args(only_p, ServerConfiguration { map: m, ..cfg }) == apply_args(none, both));
    assert(pm[0] == "-p"@ && pm[1] == port);
    assert(mp[0] == "-m"@ && mp[1] == map);
    assert(apply_args(pm, cfg) == apply_args(only_m, ServerConfiguration { port: p, ..cfg }));
    assert(apply_args(mp, cfg) == apply_args(only_p, ServerConfiguration { map: m, ..cfg }));
}

/// A later port option overrides an earlier one: of two valid port options, the second
/// decides the port.
pub proof fn lemma_last_port_wins(
    first: Seq<char>,
    second: Seq<char>,
    rest: Seq<Seq<char>>,
    cfg: ServerConfiguration,
)
    requires
        port_of_text(first) is Some,
        port_of_text(second) is Some,
    ensures
        apply_args(seq!["-p"@, first, "-p"@, second] + rest, cfg) == apply_args(
            rest,
            ServerConfiguration { port: port_of_text(second).unwrap(), ..cfg },
        ),
{
    lemma_flags_distinct();
    let pp = seq!["-p"@, first, "-p"@, second];
    assert(whole_options(pp));
    lemma_options_read_in_turn(pp, rest, cfg);
    let p1 = port_of_text(first).unwrap();
    let p2 = port_of_text(second).unwrap();
    let only = seq!["-p"@, second];
    let none = Seq::<Seq<char>>::empty();
    let last = ServerConfiguration { port: p2, ..cfg };
    assert(pp.skip(2) =~= only);
    assert(only.skip(2) =~= none);
    assert(apply_args(none, last) == Ok::<ServerConfiguration, ArgError>(last));
    assert(only[0] == "-p"@ && only[1] == second);
    assert(apply_args(only, ServerConfiguration { port: p1, ..cfg }) == apply_args(none, last));
    assert(pp[0] == "-p"@ && pp[1] == first);
    assert(apply_args(pp, cfg) == apply_args(only, ServerConfiguration { port: p1, ..cfg }));
}

} // verus!
