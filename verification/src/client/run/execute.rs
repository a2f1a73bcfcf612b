//! What a run does: which argument decides, which commands there are, and who
//! handles the chosen one.
use vstd::prelude::*;

use super::output::{rendered, CliRunOutput};
use crate::error::{Error, Payload, ERRCODE_SHOW_HELP};
use crate::text::{has_prefix, is_among, optional_str, same_text, starts_with, texts};

verus! {

/// Whether an argument decides what the run does: a request for the version,
/// or anything that is no flag.
pub open spec fn decides(arg: Seq<char>) -> bool {
    arg == "-V"@ || arg == "--version"@ || !starts_with(arg, "-"@)
}

/// The first argument from `i` on that decides; empty where there is none.
pub open spec fn deciding_argument(argv: Seq<Seq<char>>, i: int) -> Seq<char>
    decreases argv.len() - i,
{
    if i >= argv.len() {
        Seq::empty()
    } else if decides(argv[i]) {
        argv[i]
    } else {
        deciding_argument(argv, i + 1)
    }
}

/// The argument that decides what the run does; the first one is the name of
/// the program and does not count.
pub fn first_argument(argv: &[String]) -> (r: String)
    ensures
        r@ == deciding_argument(texts(argv@), 1),
{
    let ghost all = texts(argv@);
    let mut i: usize = 1;
    while i < argv.len()
        invariant
            1 <= i,
            all == texts(argv@),
            deciding_argument(all, 1) == deciding_argument(all, i as int),
        decreases argv@.len() - i,
    {
        let arg = argv[i].as_str();
        if is_version_request(arg) || !has_prefix(arg, "-") {
            return argv[i].clone();
        }
        i += 1;
    }
    String::new()
}

/// Whether the argument asks for the version.
pub fn is_version_request(arg: &str) -> (r: bool)
    ensures
        r == (arg@ == "-V"@ || arg@ == "--version"@),
{
    same_text(arg, "-V") || same_text(arg, "--version")
}

/// The names of the built-in commands.
pub open spec fn builtin_names() -> Seq<Seq<char>> {
    seq!["cache"@, "schema"@]
}

/// The names of the built-in commands. They are registered after those of the
/// services.
pub fn post_subcmds() -> (r: Vec<String>)
    ensures
        texts(r@) == builtin_names(),
{
    let names: Vec<String> = vec!["cache".to_owned(), "schema".to_owned()];
    assert(texts(names@) =~= builtin_names());
    names
}

/// Whether the services have to be looked up: neither a built-in command nor
/// one of the caller's own is meant.
pub open spec fn looks_up(first_arg: Seq<char>, custom: Seq<Seq<char>>) -> bool {
    !builtin_names().contains(first_arg) && !custom.contains(first_arg)
}

/// Whether the services have to be looked up.
pub fn needs_services(first_arg: &str, custom: &[String]) -> (r: bool)
    ensures
        r == looks_up(first_arg@, texts(custom@)),
{
    !is_among(&post_subcmds(), first_arg) && !is_among(custom, first_arg)
}

/// A service of the catalog: its name and its other names.
#[derive(Debug)]
pub struct ServiceInfo {
    pub name: String,
    pub alias: Vec<String>,
}

/// What a service stands for.
#[verifier::ext_equal]
pub struct ServiceModel {
    pub name: Seq<char>,
    pub alias: Seq<Seq<char>>,
}

impl View for ServiceInfo {
    type V = ServiceModel;

    open spec fn view(&self) -> ServiceModel {
        ServiceModel { name: self.name@, alias: texts(self.alias@) }
    }
}

/// What a list of services stands for.
pub open spec fn services_of(list: Seq<ServiceInfo>) -> Seq<ServiceModel> {
    Seq::new(list.len(), |i: int| list[i]@)
}

/// Whether the service at `i` is the first that has the name.
pub open spec fn first_named(services: Seq<ServiceModel>, name: Seq<char>, i: int) -> bool {
    &&& 0 <= i < services.len()
    &&& services[i].name == name
    &&& forall|j: int| 0 <= j < i ==> (#[trigger] services[j]).name != name
}

/// Whether the service at `i` is the first that has the name as another name.
pub open spec fn first_aliased(services: Seq<ServiceModel>, name: Seq<char>, i: int) -> bool {
    &&& 0 <= i < services.len()
    &&& services[i].alias.contains(name)
    &&& forall|j: int| 0 <= j < i ==> !(#[trigger] services[j]).alias.contains(name)
}

/// Whether the position is that of the service that a name means: the first
/// that has it as its name, or else the first that has it as another name;
/// there is none where no service has it as either.
pub open spec fn is_meant(services: Seq<ServiceModel>, name: Seq<char>, found: Option<int>) -> bool {
    match found {
        Some(i) => first_named(services, name, i) || (first_aliased(services, name, i)
            && forall|j: int| !first_named(services, name, j)),
        None => forall|j: int|
            0 <= j < services.len() ==> (#[trigger] services[j]).name != name
                && !services[j].alias.contains(name),
    }
}

/// A position as an integer.
pub open spec fn place_of(found: Option<usize>) -> Option<int> {
    match found {
        Some(i) => Some(i as int),
        None => None,
    }
}

/// The position of the service that a name means: the one that has it as its
/// name, or else the first that has it as another name.
pub fn find_service_by_name(list: &[ServiceInfo], name: &str) -> (r: Option<usize>)
    ensures
        is_meant(services_of(list@), name@, place_of(r)),
{
    let ghost all = services_of(list@);
    let mut i: usize = 0;
    while i < list.len()
        invariant
            i <= list@.len(),
            all == services_of(list@),
            forall|j: int| 0 <= j < i ==> (#[trigger] all[j]).name != name@,
        decreases list@.len() - i,
    {
        if same_text(list[i].name.as_str(), name) {
            assert(all[i as int].name == name@);
            assert(first_named(all, name@, i as int));
            return Some(i);
        }
        i += 1;
    }
    let mut k: usize = 0;
    while k < list.len()
        invariant
            k <= list@.len(),
            all == services_of(list@),
            forall|j: int| 0 <= j < list@.len() ==> (#[trigger] all[j]).name != name@,
            forall|j: int| 0 <= j < k ==> !(#[trigger] all[j]).alias.contains(name@),
        decreases list@.len() - k,
    {
        if is_among(&list[k].alias, name) {
            assert(all[k as int].alias.contains(name@));
            assert(first_aliased(all, name@, k as int));
            return Some(k);
        }
        k += 1;
    }
    None
}

/// The command for a service, as it is registered.
#[derive(Debug)]
pub struct ServiceCommand {
    /// The position of the service in the list.
    pub service: usize,
    /// Whether the command is built with the service's schema; without, it is
    /// a skeleton.
    pub with_schema: bool,
    /// The other names that the command goes by.
    pub aliases: Vec<String>,
}

/// What a registered command stands for.
#[verifier::ext_equal]
pub struct CommandModel {
    pub service: int,
    pub with_schema: bool,
    pub aliases: Seq<Seq<char>>,
}

impl View for ServiceCommand {
    type V = CommandModel;

    open spec fn view(&self) -> CommandModel {
        CommandModel {
            service: self.service as int,
            with_schema: self.with_schema,
            aliases: texts(self.aliases@),
        }
    }
}

/// What a list of registered commands stands for.
pub open spec fn commands_of(list: Seq<ServiceCommand>) -> Seq<CommandModel> {
    Seq::new(list.len(), |i: int| list[i]@)
}

/// Those of the first `n` aliases that are still free, each once.
pub open spec fn free_aliases(
    aliases: Seq<Seq<char>>,
    taken: Set<Seq<char>>,
    n: int,
) -> Seq<Seq<char>>
    decreases n,
{
    if n <= 0 {
        Seq::empty()
    } else {
        let before = free_aliases(aliases, taken, n - 1);
        if taken.contains(aliases[n - 1]) || before.contains(aliases[n - 1]) {
            before
        } else {
            before.push(aliases[n - 1])
        }
    }
}

/// The names that are taken from the start: those of the caller's own
/// commands, of all services and of the built-in commands.
pub open spec fn reserved_names(
    custom: Seq<Seq<char>>,
    services: Seq<ServiceModel>,
) -> Set<Seq<char>> {
    Set::new(
        |name: Seq<char>|
            custom.contains(name) || builtin_names().contains(name) || exists|i: int|
                0 <= i < services.len() && (#[trigger] services[i]).name == name,
    )
}

/// The names that are taken with these commands registered.
pub open spec fn taken_names(
    reserved: Set<Seq<char>>,
    commands: Seq<CommandModel>,
) -> Set<Seq<char>> {
    Set::new(
        |name: Seq<char>|
            reserved.contains(name) || exists|i: int|
                0 <= i < commands.len() && (#[trigger] commands[i]).aliases.contains(name),
    )
}

/// The commands for the first `n` services: a service whose name one of the
/// caller's own commands has is left out, only the target has its schema, and
/// an alias is registered where it is still free.
pub open spec fn service_commands(
    custom: Seq<Seq<char>>,
    services: Seq<ServiceModel>,
    target: Option<Seq<char>>,
    n: int,
) -> Seq<CommandModel>
    decreases n,
{
    if n <= 0 {
        Seq::empty()
    } else {
        let before = service_commands(custom, services, target, n - 1);
        let info = services[n - 1];
        if custom.contains(info.name) {
            before
        } else {
            let taken = taken_names(reserved_names(custom, services), before);
            before.push(
                CommandModel {
                    service: n - 1,
                    with_schema: target == Some(info.name),
                    aliases: free_aliases(info.alias, taken, info.alias.len() as int),
                },
            )
        }
    }
}

fn push_names(out: &mut Vec<String>, names: &[String])
    ensures
        texts(final(out)@) == texts(old(out)@) + texts(names@),
{
    let ghost start = texts(out@);
    let mut i: usize = 0;
    assert(start + texts(names@).take(0) =~= start);
    while i < names.len()
        invariant
            i <= names@.len(),
            texts(out@) == start + texts(names@).take(i as int),
        decreases names@.len() - i,
    {
        let ghost before = out@;
        out.push(names[i].clone());
        proof {
            assert(texts(out@) =~= texts(before).push(names@[i as int]@));
            assert(texts(out@) =~= start + texts(names@).take(i + 1));
        }
        i += 1;
    }
    assert(texts(names@).take(names@.len() as int) =~= texts(names@));
}

/// The names that are taken from the start.
fn reserved(custom: &[String], list: &[ServiceInfo]) -> (r: Vec<String>)
    ensures
        texts(r@).to_set() == reserved_names(texts(custom@), services_of(list@)),
{
    let mut names: Vec<String> = Vec::new();
    push_names(&mut names, custom);
    push_names(&mut names, &post_subcmds());
    let ghost fixed = texts(custom@) + builtin_names();
    assert(texts(names@) =~= fixed);
    let ghost all = services_of(list@);
    let mut i: usize = 0;
    while i < list.len()
        invariant
            i <= list@.len(),
            all == services_of(list@),
            texts(names@).len() == fixed.len() + i,
            forall|j: int| 0 <= j < fixed.len() ==> #[trigger] texts(names@)[j] == fixed[j],
            forall|j: int| 0 <= j < i ==> texts(names@)[fixed.len() + j] == (#[trigger] all[j]).name,
        decreases list@.len() - i,
    {
        let ghost before = names@;
        names.push(list[i].name.clone());
        proof {
            assert(texts(names@) =~= texts(before).push(list@[i as int].name@));
        }
        i += 1;
    }
    proof {
        let flat = texts(names@);
        let set = reserved_names(texts(custom@), all);
        assert forall|name: Seq<char>| flat.to_set().contains(name) <==> set.contains(name) by {
            if flat.contains(name) {
                let j = choose|j: int| 0 <= j < flat.len() && flat[j] == name;
                if j < fixed.len() {
                    assert(texts(names@)[j] == fixed[j]);
                }
                if j < texts(custom@).len() {
                    assert(texts(custom@)[j] == name);
                } else if j < fixed.len() {
                    assert(builtin_names()[j - texts(custom@).len()] == name);
                } else {
                    assert(all[j - fixed.len()].name == name);
                }
            }
            if texts(custom@).contains(name) {
                let j = choose|j: int| 0 <= j < texts(custom@).len() && texts(custom@)[j] == name;
                assert(fixed[j] == name);
                assert(flat[j] == name);
            } else if builtin_names().contains(name) {
                let j = choose|j: int|
                    0 <= j < builtin_names().len() && builtin_names()[j] == name;
                assert(fixed[texts(custom@).len() + j] == name);
                assert(flat[texts(custom@).len() + j] == name);
            } else if set.contains(name) {
                let j = choose|j: int| 0 <= j < all.len() && (#[trigger] all[j]).name == name;
                assert(flat[fixed.len() + j] == name);
            }
        }
        assert(flat.to_set() =~= set);
    }
    names
}

/// The free ones of the aliases, each once; they are taken from there on.
fn take_aliases(aliases: &[String], taken: &mut Vec<String>) -> (r: Vec<String>)
    ensures
        texts(r@) == free_aliases(
            texts(aliases@),
            texts(old(taken)@).to_set(),
            aliases@.len() as int,
        ),
        forall|name: Seq<char>|
            #![trigger texts(final(taken)@).contains(name)]
            texts(final(taken)@).contains(name) <==> texts(old(taken)@).contains(name) || texts(
                r@,
            ).contains(name),
{
    let ghost all = texts(aliases@);
    let ghost start = texts(taken@);
    let mut out: Vec<String> = Vec::new();
    let mut i: usize = 0;
    assert(texts(out@) =~= Seq::empty());
    while i < aliases.len()
        invariant
            i <= aliases@.len(),
            all == texts(aliases@),
            start == texts(old(taken)@),
            texts(out@) == free_aliases(all, start.to_set(), i as int),
            forall|name: Seq<char>|
                #![trigger texts(taken@).contains(name)]
                texts(taken@).contains(name) <==> start.contains(name) || texts(out@).contains(name),
        decreases aliases@.len() - i,
    {
        let ghost alias = all[i as int];
        if !is_among(taken, aliases[i].as_str()) {
            let ghost before_taken = taken@;
            let ghost before_out = out@;
            taken.push(aliases[i].clone());
            out.push(aliases[i].clone());
            proof {
                assert(texts(taken@) =~= texts(before_taken).push(alias));
                assert(texts(out@) =~= texts(before_out).push(alias));
                assert forall|name: Seq<char>|
                    #![trigger texts(taken@).contains(name)]
                    texts(taken@).contains(name) <==> start.contains(name) || texts(out@).contains(
                        name,
                    ) by {
                    member_of_push(texts(before_taken), alias, name);
                    member_of_push(texts(before_out), alias, name);
                    assert(texts(before_taken).contains(name) <==> start.contains(name) || texts(
                        before_out,
                    ).contains(name));
                }
            }
        }
        i += 1;
    }
    out
}

proof fn member_of_push(s: Seq<Seq<char>>, x: Seq<char>, t: Seq<char>)
    ensures
        s.push(x).contains(t) <==> s.contains(t) || t == x,
{
    assert(s.push(x)[s.len() as int] == x);
    if s.contains(t) {
        let i = choose|i: int| 0 <= i < s.len() && s[i] == t;
        assert(s.push(x)[i] == t);
    }
    if s.push(x).contains(t) && t != x {
        let i = choose|i: int| 0 <= i < s.push(x).len() && s.push(x)[i] == t;
        assert(s[i] == t);
    }
}

/// Plans the commands for the services; `target` is the name of the one that
/// the run is for. They stand between the caller's own commands and the
/// built-in ones.
pub fn build_root_cmd(custom: &[String], list: &[ServiceInfo], target: Option<&str>) -> (r: Vec<
    ServiceCommand,
>)
    ensures
        commands_of(r@) == service_commands(
            texts(custom@),
            services_of(list@),
            optional_str(target),
            list@.len() as int,
        ),
{
    let ghost own = texts(custom@);
    let ghost all = services_of(list@);
    let ghost goal = optional_str(target);
    let ghost fixed = reserved_names(own, all);
    let mut taken = reserved(custom, list);
    let mut out: Vec<ServiceCommand> = Vec::new();
    let mut i: usize = 0;
    proof {
        assert(commands_of(out@) =~= Seq::empty());
        assert forall|name: Seq<char>|
            #![trigger texts(taken@).contains(name)]
            texts(taken@).contains(name) <==> taken_names(fixed, commands_of(out@)).contains(
                name,
            ) by {
            assert(texts(taken@).to_set().contains(name) <==> fixed.contains(name));
        }
    }
    while i < list.len()
        invariant
            i <= list@.len(),
            own == texts(custom@),
            all == services_of(list@),
            goal == optional_str(target),
            fixed == reserved_names(own, all),
            commands_of(out@) == service_commands(own, all, goal, i as int),
            forall|name: Seq<char>|
                #![trigger texts(taken@).contains(name)]
                texts(taken@).contains(name) <==> taken_names(fixed, commands_of(out@)).contains(
                    name,
                ),
        decreases list@.len() - i,
    {
        let ghost before = commands_of(out@);
        let ghost info = all[i as int];
        assert(info == list@[i as int]@);
        if !is_among(custom, list[i].name.as_str()) {
            let with_schema: bool = match target {
                Some(name) => same_text(name, list[i].name.as_str()),
                None => false,
            };
            let ghost taken_before = texts(taken@);
            proof {
                assert(taken_before.to_set() =~= taken_names(fixed, before)) by {
                    assert forall|name: Seq<char>| taken_before.to_set().contains(name)
                        <==> taken_names(fixed, before).contains(name) by {
                        assert(taken_before.contains(name) <==> taken_names(
                            fixed,
                            before,
                        ).contains(name));
                    }
                }
            }
            let aliases = take_aliases(&list[i].alias, &mut taken);
            let ghost old_out = out@;
            let ghost kept = texts(aliases@);
            out.push(ServiceCommand { service: i, with_schema, aliases });
            proof {
                let command = CommandModel {
                    service: i as int,
                    with_schema: goal == Some(info.name),
                    aliases: kept,
                };
                let now = commands_of(out@);
                assert(now =~= before.push(command));
                assert forall|name: Seq<char>|
                    #![trigger texts(taken@).contains(name)]
                    texts(taken@).contains(name) <==> taken_names(fixed, now).contains(name) by {
                    assert(taken_before.contains(name) <==> taken_names(fixed, before).contains(
                        name,
                    ));
                    if kept.contains(name) {
                        assert(now[before.len() as int].aliases.contains(name));
                    }
                    if taken_names(fixed, before).contains(name) && !fixed.contains(name) {
                        let j = choose|j: int|
                            0 <= j < before.len() && (#[trigger] before[j]).aliases.contains(name);
                        assert(now[j].aliases.contains(name));
                    }
                    if taken_names(fixed, now).contains(name) && !fixed.contains(name) {
                        let j = choose|j: int|
                            0 <= j < now.len() && (#[trigger] now[j]).aliases.contains(name);
                        if j < before.len() {
                            assert(before[j].aliases.contains(name));
                        }
                    }
                }
            }
        }
        i += 1;
    }
    out
}

proof fn free_aliases_facts(aliases: Seq<Seq<char>>, taken: Set<Seq<char>>, n: int)
    requires
        0 <= n <= aliases.len(),
    ensures
        free_aliases(aliases, taken, n).no_duplicates(),
        forall|a: int|
            0 <= a < free_aliases(aliases, taken, n).len() ==> !taken.contains(
                #[trigger] free_aliases(aliases, taken, n)[a],
            ),
        forall|k: int|
            0 <= k < n ==> taken.contains(#[trigger] aliases[k]) || free_aliases(
                aliases,
                taken,
                n,
            ).contains(aliases[k]),
    decreases n,
{
    if n > 0 {
        free_aliases_facts(aliases, taken, n - 1);
        let before = free_aliases(aliases, taken, n - 1);
        let after = free_aliases(aliases, taken, n);
        assert forall|a: int| 0 <= a < after.len() implies !taken.contains(#[trigger] after[a]) by {
            if a < before.len() {
                assert(!taken.contains(before[a]));
            }
        }
        assert forall|k: int| 0 <= k < n implies taken.contains(#[trigger] aliases[k])
            || after.contains(aliases[k]) by {
            if k < n - 1 {
                if before.contains(aliases[k]) {
                    let j = choose|j: int| 0 <= j < before.len() && before[j] == aliases[k];
                    assert(after[j] == aliases[k]);
                }
            } else if !taken.contains(aliases[k]) && !before.contains(aliases[k]) {
                assert(after[before.len() as int] == aliases[k]);
            }
        }
    }
}

/// No alias that is registered is the name of a command, and no alias is
/// registered twice: what the user types means one command.
pub proof fn aliases_never_clash(
    custom: Seq<Seq<char>>,
    services: Seq<ServiceModel>,
    target: Option<Seq<char>>,
    n: int,
)
    requires
        0 <= n <= services.len(),
    ensures
        ({
            let commands = service_commands(custom, services, target, n);
            &&& forall|i: int, a: int|
                0 <= i < commands.len() && 0 <= a < commands[i].aliases.len() ==> !reserved_names(
                    custom,
                    services,
                ).contains(#[trigger] commands[i].aliases[a])
            &&& forall|i: int, a: int, j: int, b: int|
                0 <= i < commands.len() && 0 <= a < commands[i].aliases.len() && 0 <= j
                    < commands.len() && 0 <= b < commands[j].aliases.len() && (i != j || a != b)
                    ==> #[trigger] commands[i].aliases[a] != #[trigger] commands[j].aliases[b]
        }),
    decreases n,
{
    if n > 0 {
        aliases_never_clash(custom, services, target, n - 1);
        let reserved = reserved_names(custom, services);
        let before = service_commands(custom, services, target, n - 1);
        let commands = service_commands(custom, services, target, n);
        let info = services[n - 1];
        let taken = taken_names(reserved, before);
        let kept = free_aliases(info.alias, taken, info.alias.len() as int);
        free_aliases_facts(info.alias, taken, info.alias.len() as int);
        if !custom.contains(info.name) {
            let last = before.len() as int;
            assert forall|i: int, a: int|
                0 <= i < commands.len() && 0 <= a < commands[i].aliases.len() implies !reserved.contains(
            #[trigger] commands[i].aliases[a]) by {
                if i < last {
                    assert(!reserved.contains(before[i].aliases[a]));
                } else {
                    assert(!taken.contains(kept[a]));
                }
            }
            assert forall|i: int, a: int, j: int, b: int|
                0 <= i < commands.len() && 0 <= a < commands[i].aliases.len() && 0 <= j
                    < commands.len() && 0 <= b < commands[j].aliases.len() && (i != j || a
                    != b) implies #[trigger] commands[i].aliases[a]
                != #[trigger] commands[j].aliases[b] by {
                if i < last && j < last {
                    assert(before[i].aliases[a] != before[j].aliases[b]);
                } else if i < last {
                    assert(before[i].aliases.contains(before[i].aliases[a]));
                    assert(taken.contains(before[i].aliases[a]));
                    assert(!taken.contains(kept[b]));
                } else if j < last {
                    assert(before[j].aliases.contains(before[j].aliases[b]));
                    assert(taken.contains(before[j].aliases[b]));
                    assert(!taken.contains(kept[a]));
                }
            }
        }
    }
}

/// Every service has its command, in the order of the list, but for those
/// whose name one of the caller's own commands has; and only the target is
/// built with its schema.
pub proof fn commands_cover_services(
    custom: Seq<Seq<char>>,
    services: Seq<ServiceModel>,
    target: Option<Seq<char>>,
    n: int,
)
    requires
        0 <= n <= services.len(),
    ensures
        ({
            let commands = service_commands(custom, services, target, n);
            &&& forall|i: int|
                0 <= i < commands.len() ==> {
                    &&& 0 <= (#[trigger] commands[i]).service < n
                    &&& !custom.contains(services[commands[i].service].name)
                    &&& commands[i].with_schema <==> target == Some(
                        services[commands[i].service].name,
                    )
                }
            &&& forall|i: int, j: int|
                0 <= i < j < commands.len() ==> (#[trigger] commands[i]).service < (
                #[trigger] commands[j]).service
            &&& forall|k: int|
                0 <= k < n && !custom.contains((#[trigger] services[k]).name) ==> exists|i: int|
                    0 <= i < commands.len() && (#[trigger] commands[i]).service == k
        }),
    decreases n,
{
    if n > 0 {
        commands_cover_services(custom, services, target, n - 1);
        let before = service_commands(custom, services, target, n - 1);
        let commands = service_commands(custom, services, target, n);
        assert forall|k: int| 0 <= k < n && !custom.contains(
            (#[trigger] services[k]).name,
        ) implies exists|i: int|
            0 <= i < commands.len() && (#[trigger] commands[i]).service == k by {
            if k < n - 1 {
                let i = choose|i: int| 0 <= i < before.len() && (#[trigger] before[i]).service == k;
                assert(commands[i].service == k);
            } else {
                assert(commands[before.len() as int].service == k);
            }
        }
        assert forall|i: int, j: int| 0 <= i < j < commands.len() implies (
        #[trigger] commands[i]).service < (#[trigger] commands[j]).service by {
            if j < before.len() {
                assert(before[i].service < before[j].service);
            } else {
                assert(before[i].service < n - 1);
            }
        }
    }
}

/// Who handles the chosen command.
#[derive(Debug, Clone, Copy, PartialEq, Eq, Structural)]
pub enum Dispatch {
    /// The built-in command on caches.
    Cache,
    /// The built-in command on schemas.
    Schema,
    /// The caller's own command at the position.
    Custom(usize),
    /// A service.
    Service,
    /// Nobody: no command was chosen.
    Missing,
}

/// Whether the command is handled so: the built-in ones go first, the caller's
/// own after them, and every other name is that of a service.
pub open spec fn handled_by(name: Option<Seq<char>>, custom: Seq<Seq<char>>, who: Dispatch) -> bool {
    match name {
        None => who == Dispatch::Missing,
        Some(text) => if text == "cache"@ {
            who == Dispatch::Cache
        } else if text == "schema"@ {
            who == Dispatch::Schema
        } else if custom.contains(text) {
            who matches Dispatch::Custom(i) && i < custom.len() && custom[i as int] == text
                && forall|j: int| 0 <= j < i ==> #[trigger] custom[j] != text
        } else {
            who == Dispatch::Service
        },
    }
}

/// Who handles the chosen command.
pub fn dispatch(name: Option<&str>, custom: &[String]) -> (r: Dispatch)
    ensures
        handled_by(optional_str(name), texts(custom@), r),
{
    let chosen: &str = match name {
        Some(text) => text,
        None => {
            return Dispatch::Missing;
        },
    };
    if same_text(chosen, "cache") {
        return Dispatch::Cache;
    }
    if same_text(chosen, "schema") {
        return Dispatch::Schema;
    }
    let mut i: usize = 0;
    while i < custom.len()
        invariant
            i <= custom@.len(),
            optional_str(name) == Some(chosen@),
            chosen@ != "cache"@,
            chosen@ != "schema"@,
            forall|j: int| 0 <= j < i ==> #[trigger] texts(custom@)[j] != chosen@,
        decreases custom@.len() - i,
    {
        if same_text(custom[i].as_str(), chosen) {
            assert(texts(custom@)[i as int] == chosen@);
            return Dispatch::Custom(i);
        }
        i += 1;
    }
    assert(!texts(custom@).contains(chosen@)) by {
        if texts(custom@).contains(chosen@) {
            let j = choose|j: int| 0 <= j < texts(custom@).len() && texts(custom@)[j] == chosen@;
            assert(texts(custom@)[j] != chosen@);
        }
    }
    Dispatch::Service
}

/// The error for a run without a command.
pub fn missing_subcommand() -> (r: Error)
    ensures
        r matches Error::Wrapped(Payload::Other(message)) && message@ == "Missing subcommand"@,
{
    Error::other("Missing subcommand")
}

/// Whether the server's answer asks for the help of the command.
pub open spec fn asks_for_help(error: Error) -> bool {
    error matches Error::Wrapped(Payload::Api { code, .. }) && code == Some(ERRCODE_SHOW_HELP)
}

/// The result of a run: where the server's answer asks for the help of the
/// command, a usage error with that help, and the answer itself elsewhere.
pub fn finish(error: Error, leaf_help: &str) -> (r: Error)
    ensures
        if asks_for_help(error) {
            r matches Error::CliOutput { code, message, source } && code == 2 && message@
                == leaf_help@ && source is None
        } else {
            r == error
        },
{
    let help: bool = match &error {
        Error::Wrapped(payload) => match payload {
            Payload::Api { code, .. } => match code {
                Some(c) => *c == ERRCODE_SHOW_HELP,
                None => false,
            },
            _ => false,
        },
        Error::CliOutput { .. } => false,
    };
    if help {
        Error::CliOutput { code: 2, message: leaf_help.to_owned(), source: None }
    } else {
        error
    }
}

/// A command and the commands below it: its name, its other names, and its
/// help with escape codes.
#[derive(Debug)]
pub struct CommandTree {
    pub name: String,
    pub aliases: Vec<String>,
    pub help: String,
    pub children: Vec<CommandTree>,
}

/// Whether the command goes by the name.
pub open spec fn goes_by(command: CommandTree, name: Seq<char>) -> bool {
    command.name@ == name || texts(command.aliases@).contains(name)
}

/// The position of the first of the commands that goes by the name; their
/// number where none does.
pub open spec fn child_named(children: Seq<CommandTree>, name: Seq<char>) -> nat
    decreases children.len(),
{
    if children.len() == 0 || goes_by(children[0], name) {
        0
    } else {
        1 + child_named(children.drop_first(), name)
    }
}

/// The command that a path leads to, as far as it leads.
pub open spec fn leaf(tree: CommandTree, path: Seq<Seq<char>>) -> CommandTree
    decreases path.len(),
{
    if path.len() == 0 {
        tree
    } else {
        let i = child_named(tree.children@, path[0]) as int;
        if i < tree.children@.len() {
            leaf(tree.children@[i], path.drop_first())
        } else {
            tree
        }
    }
}

fn find_leaf<'a>(tree: &'a CommandTree, path: &[String]) -> (r: &'a CommandTree)
    ensures
        *r == leaf(*tree, texts(path@)),
{
    let ghost all = texts(path@);
    let mut node: &'a CommandTree = tree;
    let mut i: usize = 0;
    assert(all.skip(0) =~= all);
    while i < path.len()
        invariant
            i <= path@.len(),
            all == texts(path@),
            leaf(*tree, all) == leaf(*node, all.skip(i as int)),
        decreases path@.len() - i,
    {
        let k: usize = find_subcommand(&node.children, path[i].as_str());
        if k >= node.children.len() {
            return node;
        }
        assert(all.skip(i as int).drop_first() =~= all.skip(i + 1));
        node = &node.children[k];
        i += 1;
    }
    assert(all.skip(i as int) =~= Seq::empty());
    node
}

fn find_subcommand(children: &Vec<CommandTree>, name: &str) -> (r: usize)
    ensures
        r <= children@.len(),
        r == child_named(children@, name@),
{
    let mut i: usize = 0;
    assert(children@.skip(0) =~= children@);
    while i < children.len()
        invariant
            i <= children@.len(),
            child_named(children@, name@) == i + child_named(children@.skip(i as int), name@),
        decreases children@.len() - i,
    {
        if same_text(children[i].name.as_str(), name) || is_among(&children[i].aliases, name) {
            return i;
        }
        assert(children@.skip(i as int).drop_first() =~= children@.skip(i + 1));
        i += 1;
    }
    i
}

/// `anstyle::Style::render` of bold red: the codes that switch it on, first
/// the effect and next the color.
#[verifier::external_body]
fn error_style_on() -> (r: String)
    ensures
        r@ == "\x1b[1m\x1b[31m"@,
{
    let red = anstyle::Color::Ansi(anstyle::AnsiColor::Red);
    anstyle::Style::new().fg_color(Some(red)).bold().render().to_string()
}

/// `anstyle::Style::render_reset` of bold red: the code that switches every
/// style off.
#[verifier::external_body]
fn error_style_off() -> (r: String)
    ensures
        r@ == "\x1b[0m"@,
{
    let red = anstyle::Color::Ansi(anstyle::AnsiColor::Red);
    anstyle::Style::new().fg_color(Some(red)).bold().render_reset().to_string()
}

/// The help of a command, behind a line for the error where there is one.
pub open spec fn help_text(help: Seq<char>, error: Option<Seq<char>>) -> Seq<char> {
    match error {
        Some(message) => "\x1b[1m\x1b[31m"@ + "error:"@ + "\x1b[0m"@ + " "@ + message + "\n\n"@
            + help,
        None => help,
    }
}

impl<W> CliRunOutput<W> {
    /// The help of the command that a path leads to, as it is to be written.
    pub fn render_leaf_help(
        &self,
        tree: &CommandTree,
        path: &[String],
        api_error: Option<&str>,
    ) -> (r: String)
        ensures
            r@ == rendered(
                help_text(leaf(*tree, texts(path@)).help@, optional_str(api_error)),
                self.color(),
            ),
    {
        let node = find_leaf(tree, path);
        let styled: String = match api_error {
            Some(message) => {
                let mut out: String = error_style_on();
                out.append("error:");
                out.append(error_style_off().as_str());
                out.append(" ");
                out.append(message);
                out.append("\n\n");
                out.append(node.help.as_str());
                out
            },
            None => node.help.clone(),
        };
        self.render_styled(styled.as_str())
    }
}

proof fn deciding_argument_skips(argv: Seq<Seq<char>>, i: int, k: int)
    requires
        0 <= i <= k <= argv.len(),
        forall|j: int| i <= j < k ==> !decides(#[trigger] argv[j]),
    ensures
        deciding_argument(argv, i) == deciding_argument(argv, k),
    decreases k - i,
{
    if i < k {
        assert(!decides(argv[i]));
        deciding_argument_skips(argv, i + 1, k);
    }
}

/// The argument that decides is the first behind the name of the program that
/// is no flag, or asks for the version; flags before it are passed over, and
/// where all are flags nothing decides.
pub proof fn first_argument_decides(argv: Seq<Seq<char>>, k: int)
    requires
        1 <= k <= argv.len(),
        forall|j: int|
            1 <= j < k ==> (#[trigger] argv[j]).len() > 0 && argv[j][0] == '-' && argv[j] != "-V"@
                && argv[j] != "--version"@,
    ensures
        k == argv.len() ==> deciding_argument(argv, 1).len() == 0,
        k < argv.len() && (argv[k].len() == 0 || argv[k][0] != '-' || argv[k] == "-V"@ || argv[k]
            == "--version"@) ==> deciding_argument(argv, 1) == argv[k],
{
    reveal_strlit("-");
    assert forall|j: int| 1 <= j < k implies !decides(#[trigger] argv[j]) by {
        assert(argv[j].take(1) =~= "-"@);
    }
    deciding_argument_skips(argv, 1, k);
    if k < argv.len() {
        let arg = argv[k];
        if arg.len() > 0 && arg[0] != '-' {
            assert(arg.take(1)[0] == arg[0]);
        }
    }
}

/// The services are looked up for every command but `cache`, `schema` and the
/// caller's own.
pub proof fn services_are_looked_up(first_arg: Seq<char>, custom: Seq<Seq<char>>, i: int)
    ensures
        !looks_up("cache"@, custom),
        !looks_up("schema"@, custom),
        0 <= i < custom.len() ==> !looks_up(custom[i], custom),
        first_arg != "cache"@ && first_arg != "schema"@ && (forall|j: int|
            0 <= j < custom.len() ==> (#[trigger] custom[j]) != first_arg) ==> looks_up(
            first_arg,
            custom,
        ),
{
    let names = builtin_names();
    assert(names[0] == "cache"@ && names[1] == "schema"@);
    if 0 <= i < custom.len() {
        assert(custom.contains(custom[i]));
    }
}

/// A name means the first service that has it as its name; other names count
/// only where no service has it, and among them the first does.
pub proof fn names_go_before_aliases(
    services: Seq<ServiceModel>,
    name: Seq<char>,
    found: Option<int>,
    k: int,
)
    requires
        is_meant(services, name, found),
        0 <= k < services.len(),
    ensures
        services[k].name == name ==> (found matches Some(i) && 0 <= i <= k && services[i].name
            == name),
        services[k].alias.contains(name) && (forall|j: int|
            0 <= j < services.len() ==> (#[trigger] services[j]).name != name) ==> (
        found matches Some(i) && 0 <= i <= k && services[i].alias.contains(name)),
        found matches Some(i) ==> 0 <= i < services.len() && (services[i].name == name
            || services[i].alias.contains(name)),
{
    if services[k].name == name {
        first_name_exists(services, name, k);
        if let Some(i) = found {
            if first_named(services, name, i) {
                if i > k {
                    assert(services[k].name != name);
                }
            }
        }
    }
    if services[k].alias.contains(name) && (forall|j: int|
        0 <= j < services.len() ==> (#[trigger] services[j]).name != name) {
        if let Some(i) = found {
            assert(!first_named(services, name, i));
            if i > k {
                assert(!services[k].alias.contains(name));
            }
        }
    }
}

proof fn first_name_exists(services: Seq<ServiceModel>, name: Seq<char>, k: int)
    requires
        0 <= k < services.len(),
        services[k].name == name,
    ensures
        exists|i: int| first_named(services, name, i),
    decreases k,
{
    if forall|j: int| 0 <= j < k ==> (#[trigger] services[j]).name != name {
        assert(first_named(services, name, k));
    } else {
        let j = choose|j: int| 0 <= j < k && (#[trigger] services[j]).name == name;
        first_name_exists(services, name, j);
    }
}

proof fn free_aliases_are_given(aliases: Seq<Seq<char>>, taken: Set<Seq<char>>, n: int, name: Seq<char>)
    requires
        0 <= n <= aliases.len(),
        free_aliases(aliases, taken, n).contains(name),
    ensures
        aliases.contains(name),
    decreases n,
{
    if n > 0 {
        let before = free_aliases(aliases, taken, n - 1);
        let after = free_aliases(aliases, taken, n);
        if before.contains(name) {
            free_aliases_are_given(aliases, taken, n - 1, name);
        } else {
            let k = choose|k: int| 0 <= k < after.len() && after[k] == name;
            if k < before.len() {
                assert(before[k] == name);
            }
            assert(aliases[n - 1] == name);
        }
    }
}

/// Every other name of a service that has a command is a way to call one,
/// unless it is the name of a command; and a command goes by no other names
/// than those of its service.
pub proof fn free_aliases_are_registered(
    custom: Seq<Seq<char>>,
    services: Seq<ServiceModel>,
    target: Option<Seq<char>>,
    n: int,
    k: int,
    name: Seq<char>,
)
    requires
        0 <= n <= services.len(),
    ensures
        ({
            let commands = service_commands(custom, services, target, n);
            &&& 0 <= k < n && !custom.contains(services[k].name) && services[k].alias.contains(name)
                && !custom.contains(name) && name != "cache"@ && name != "schema"@ && (forall|j: int|
                0 <= j < services.len() ==> (#[trigger] services[j]).name != name)
                ==> exists|i: int|
                0 <= i < commands.len() && (#[trigger] commands[i]).aliases.contains(name)
            &&& forall|i: int|
                0 <= i < commands.len() && (#[trigger] commands[i]).aliases.contains(name)
                    ==> services[commands[i].service].alias.contains(name)
        }),
    decreases n,
{
    if n > 0 {
        free_aliases_are_registered(custom, services, target, n - 1, k, name);
        let before = service_commands(custom, services, target, n - 1);
        let commands = service_commands(custom, services, target, n);
        let info = services[n - 1];
        let reserved = reserved_names(custom, services);
        let taken = taken_names(reserved, before);
        let last = before.len() as int;
        assert forall|i: int| 0 <= i < commands.len() && (#[trigger] commands[i]).aliases.contains(
            name,
        ) implies services[commands[i].service].alias.contains(name) by {
            if i < last {
                assert(before[i] == commands[i]);
            } else {
                free_aliases_are_given(info.alias, taken, info.alias.len() as int, name);
            }
        }
        if exists|i: int| 0 <= i < before.len() && (#[trigger] before[i]).aliases.contains(name) {
            let i = choose|i: int|
                0 <= i < before.len() && (#[trigger] before[i]).aliases.contains(name);
            assert(commands[i] == before[i]);
        } else if k == n - 1 && !custom.contains(info.name) && info.alias.contains(name)
            && !custom.contains(name) && name != "cache"@ && name != "schema"@ && (forall|j: int|
            0 <= j < services.len() ==> (#[trigger] services[j]).name != name) {
            assert(!builtin_names().contains(name));
            assert(!reserved.contains(name));
            assert(!taken.contains(name));
            free_aliases_facts(info.alias, taken, info.alias.len() as int);
            let a = choose|a: int| 0 <= a < info.alias.len() && info.alias[a] == name;
            assert(taken.contains(info.alias[a]) || free_aliases(
                info.alias,
                taken,
                info.alias.len() as int,
            ).contains(info.alias[a]));
            assert(commands[last].aliases.contains(name));
        }
    }
}

/// Who handles a command: `cache` and `schema` are built in, whatever else has
/// these names; after them the first of the caller's own commands of that name;
/// and a service what is left. Without a command nobody does.
pub proof fn every_command_has_its_handler(
    name: Seq<char>,
    custom: Seq<Seq<char>>,
    who: Dispatch,
    i: int,
)
    ensures
        handled_by(None, custom, who) <==> who is Missing,
        handled_by(Some("cache"@), custom, who) <==> who is Cache,
        handled_by(Some("schema"@), custom, who) <==> who is Schema,
        handled_by(Some(name), custom, who) && name != "cache"@ && name != "schema"@ && 0 <= i
            < custom.len() && custom[i] == name ==> (who matches Dispatch::Custom(k) && k <= i
            && custom[k as int] == name),
        handled_by(Some(name), custom, who) && name != "cache"@ && name != "schema"@ && (forall|j: int|
            0 <= j < custom.len() ==> (#[trigger] custom[j]) != name) ==> who is Service,
{
    reveal_strlit("cache");
    reveal_strlit("schema");
    assert("cache"@.len() != "schema"@.len());
    if handled_by(Some(name), custom, who) && name != "cache"@ && name != "schema"@ && 0 <= i
        < custom.len() && custom[i] == name {
        assert(custom.contains(name));
        if let Dispatch::Custom(k) = who {
            if k > i {
                assert(custom[i] != name);
            }
        }
    }
}

/// The help of the command is shown for the server's code 10021, and for
/// nothing else.
pub proof fn help_is_shown_for_one_code(error: Error)
    ensures
        asks_for_help(error) <==> (error matches Error::Wrapped(Payload::Api { code, .. }) && code
            == Some(10021i64)),
{
}

proof fn child_named_is(children: Seq<CommandTree>, name: Seq<char>, k: int)
    requires
        0 <= k <= children.len(),
        k == children.len() || goes_by(children[k], name),
        forall|j: int| 0 <= j < k ==> !goes_by(#[trigger] children[j], name),
    ensures
        child_named(children, name) == k,
    decreases children.len(),
{
    if k > 0 {
        assert(!goes_by(children[0], name));
        let rest = children.drop_first();
        assert forall|j: int| 0 <= j < k - 1 implies !goes_by(#[trigger] rest[j], name) by {
            assert(rest[j] == children[j + 1]);
        }
        child_named_is(rest, name, k - 1);
    }
}

/// A path leads, name by name, to the first command below that has the name as
/// its own or as another; where none has, it ends.
pub proof fn path_leads_down(tree: CommandTree, name: Seq<char>, rest: Seq<Seq<char>>, k: int)
    requires
        0 <= k <= tree.children@.len(),
        forall|j: int|
            0 <= j < k ==> (#[trigger] tree.children@[j]).name@ != name && !texts(
                tree.children@[j].aliases@,
            ).contains(name),
        k < tree.children@.len() ==> tree.children@[k].name@ == name || texts(
            tree.children@[k].aliases@,
        ).contains(name),
    ensures
        leaf(tree, Seq::empty()) == tree,
        k < tree.children@.len() ==> leaf(tree, seq![name] + rest) == leaf(
            tree.children@[k],
            rest,
        ),
        k == tree.children@.len() ==> leaf(tree, seq![name] + rest) == tree,
{
    let path = seq![name] + rest;
    assert(path.drop_first() =~= rest);
    child_named_is(tree.children@, name, k);
}

/// The help of a command is the help itself; an error goes before it, on a line
/// of its own, behind the word `error:` in bold red.
pub proof fn error_goes_before_the_help(help: Seq<char>, message: Seq<char>)
    ensures
        help_text(help, None) == help,
        help_text(help, Some(message)) == help_text(Seq::empty(), Some(message)) + help,
        help_text(Seq::empty(), Some(message)) == "\x1b[1m\x1b[31merror:\x1b[0m "@ + message + seq![
            '\n',
            '\n',
        ],
{
    reveal_strlit("\x1b[1m\x1b[31merror:\x1b[0m ");
    reveal_strlit("\x1b[1m\x1b[31m");
    reveal_strlit("error:");
    reveal_strlit("\x1b[0m");
    reveal_strlit(" ");
    reveal_strlit("\n\n");
    assert("\x1b[1m\x1b[31m"@ + "error:"@ + "\x1b[0m"@ + " "@
        =~= "\x1b[1m\x1b[31merror:\x1b[0m "@);
    assert("\n\n"@ =~= seq!['\n', '\n']);
    assert(help_text(help, Some(message)) =~= help_text(Seq::empty(), Some(message)) + help);
    assert(help_text(Seq::empty(), Some(message)) =~= "\x1b[1m\x1b[31merror:\x1b[0m "@ + message
        + seq!['\n', '\n']);
}

} // verus!
