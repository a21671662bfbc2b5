use fuchsia_lib::cmc::document::{
    manifest_format_of, validate_document, validate_runner_specified, Child, Collection,
    Dependency, Document, Environment, Expose, ExposeTo, Extends, ManifestFormat, Offer, Ref, Refs,
    ResolverRegistration, RightToken, Runner, RunnerRegistration, Storage, Use, ValidationContext,
    BAD_EXTENSION, DEPENDENCY_CYCLE, PROGRAM_WITHOUT_RUNNER,
};
use fuchsia_lib::cmc::graph::{find_cycles, format_cycles, is_acyclic};
use fuchsia_lib::cmc::validate::{
    CapabilityClause, CapabilityId, DependencyNode, ManifestError, NameOrPath, OneOrMany,
};

fn s(x: &str) -> String {
    x.to_string()
}

fn err(m: &str) -> Result<(), ManifestError> {
    Err(ManifestError::Validate(s(m)))
}

fn clause(decl: &str) -> CapabilityClause {
    CapabilityClause {
        decl_type: s(decl),
        supported: vec![
            s("service"),
            s("protocol"),
            s("directory"),
            s("storage"),
            s("runner"),
            s("event"),
            s("event_stream"),
        ],
        service: None,
        protocol: None,
        directory: None,
        runner: None,
        resolver: None,
        event: None,
        event_stream: None,
        storage: None,
        alias: None,
        filter: false,
    }
}

fn empty_doc() -> Document {
    Document {
        program: false,
        uses: vec![],
        exposes: vec![],
        offers: vec![],
        children: vec![],
        collections: vec![],
        storage: vec![],
        runners: vec![],
        resolvers: vec![],
        environments: vec![],
    }
}

fn use_of(c: CapabilityClause) -> Use {
    Use { clause: c, from: None, rights: None }
}

fn named(n: &str) -> Ref {
    Ref::Named(s(n))
}

fn child(n: &str) -> Child {
    Child { name: s(n), environment: None }
}

fn token(t: &str) -> RightToken {
    let base = vec!["connect", "enumerate", "traverse"];
    let rights: Vec<&str> = match t {
        "r*" => [base.clone(), vec!["read_bytes", "get_attributes"]].concat(),
        "w*" => [base.clone(), vec!["write_bytes", "modify_directory", "update_attributes"]].concat(),
        "x*" => [base.clone(), vec!["execute"]].concat(),
        other => vec![other],
    };
    RightToken { token: s(t), rights: rights.into_iter().map(s).collect() }
}

fn env(name: &str) -> Environment {
    Environment {
        name: s(name),
        extends: Some(Extends::Realm),
        stop_timeout_ms: None,
        runners: vec![],
        resolvers: vec![],
    }
}

fn offer(c: CapabilityClause, from: Refs, to: &[&str]) -> Offer {
    Offer {
        clause: c,
        from,
        to: to.iter().map(|t| s(t)).collect(),
        rights: None,
        dependency: None,
    }
}

fn expose(c: CapabilityClause, from: Refs) -> Expose {
    Expose { clause: c, from, to: None, rights: None, subdir: None }
}

#[test]
fn empty_manifest_is_valid() {
    assert_eq!(validate_document(&empty_doc()), Ok(()));
}

#[test]
fn use_clauses() {
    let mut doc = empty_doc();
    doc.uses = vec![Use {
        clause: CapabilityClause { event: Some(OneOrMany::One(s("started"))), ..clause("use") },
        from: None,
        rights: None,
    }];
    assert_eq!(validate_document(&doc), err("\"from\" should be present with \"event\""));

    doc.uses = vec![use_of(clause("use"))];
    assert_eq!(
        validate_document(&doc),
        err("`use` declaration is missing a capability keyword, one of: \"service\", \"protocol\", \"directory\", \"storage\", \"runner\", \"event\", \"event_stream\"")
    );

    doc.uses = vec![use_of(CapabilityClause {
        storage: Some(s("meta")),
        alias: Some(NameOrPath::Path(s("/meta"))),
        ..clause("use")
    })];
    assert_eq!(validate_document(&doc), err("\"as\" field cannot be used with storage type \"meta\""));

    doc.uses = vec![use_of(CapabilityClause {
        runner: Some(s("elf")),
        alias: Some(NameOrPath::Name(s("my_elf"))),
        ..clause("use")
    })];
    assert_eq!(validate_document(&doc), err("\"as\" field cannot be used with \"runner\""));

    doc.uses = vec![Use {
        clause: CapabilityClause { storage: Some(s("cache")), ..clause("use") },
        from: Some(Ref::Realm),
        rights: None,
    }];
    assert_eq!(validate_document(&doc), err("\"from\" field cannot be used with \"storage\""));

    doc.uses = vec![
        use_of(CapabilityClause {
            protocol: Some(OneOrMany::One(s("/svc/fuchsia.sys2.Realm"))),
            ..clause("use")
        }),
        use_of(CapabilityClause {
            protocol: Some(OneOrMany::Many(vec![s("/svc/fuchsia.sys2.Realm"), s("/svc/b")])),
            ..clause("use")
        }),
    ];
    assert_eq!(
        validate_document(&doc),
        err("\"/svc/fuchsia.sys2.Realm\" is a duplicate \"use\" target protocol")
    );
}

#[test]
fn use_paths_may_not_nest() {
    let mut doc = empty_doc();
    let dir = |p: &str| Use {
        clause: CapabilityClause { directory: Some(s(p)), ..clause("use") },
        from: None,
        rights: Some(vec![token("r*")]),
    };
    doc.uses = vec![dir("/foo/bar"), dir("/foo/bar/baz")];
    assert_eq!(
        validate_document(&doc),
        err("directory \"/foo/bar/baz\" is a prefix of \"use\" target directory \"/foo/bar\"")
    );
    doc.uses = vec![
        dir("/foo/bar"),
        use_of(CapabilityClause {
            protocol: Some(OneOrMany::One(s("/foo/bar/fuchsia.2"))),
            ..clause("use")
        }),
    ];
    assert_eq!(
        validate_document(&doc),
        err("protocol \"/foo/bar/fuchsia.2\" is a prefix of \"use\" target directory \"/foo/bar\"")
    );
    doc.uses = vec![
        use_of(CapabilityClause { protocol: Some(OneOrMany::One(s("/svc/a"))), ..clause("use") }),
        use_of(CapabilityClause { service: Some(s("/svc/b")), ..clause("use") }),
    ];
    assert_eq!(validate_document(&doc), Ok(()));
}

#[test]
fn use_events_and_streams() {
    let mut doc = empty_doc();
    let event = |names: Vec<&str>| Use {
        clause: CapabilityClause {
            event: Some(OneOrMany::Many(names.into_iter().map(s).collect())),
            ..clause("use")
        },
        from: Some(Ref::Realm),
        rights: None,
    };
    let stream = |names: Vec<&str>| {
        use_of(CapabilityClause {
            event_stream: Some(names.into_iter().map(s).collect()),
            ..clause("use")
        })
    };
    doc.uses = vec![event(vec!["started", "destroyed"]), stream(vec!["started", "destroyed"])];
    assert_eq!(validate_document(&doc), Ok(()));
    doc.uses = vec![event(vec!["started"]), stream(vec!["started", "destroyed"])];
    assert_eq!(
        validate_document(&doc),
        err("Event \"destroyed\" in event stream not found in any \"use\" declaration.")
    );
    doc.uses = vec![event(vec!["destroyed", "started"]), event(vec!["destroyed", "stopped"])];
    assert_eq!(validate_document(&doc), err("\"destroyed\" is a duplicate \"use\" target event"));
}

#[test]
fn rights_clauses() {
    let mut doc = empty_doc();
    let dir = |rights: Option<Vec<RightToken>>| Use {
        clause: CapabilityClause { directory: Some(s("/foo/bar")), ..clause("use") },
        from: None,
        rights,
    };
    doc.uses = vec![dir(Some(vec![token("w*"), token("read_bytes")]))];
    assert_eq!(validate_document(&doc), Ok(()));
    doc.uses = vec![dir(Some(vec![token("r*"), token("read_bytes")]))];
    assert_eq!(validate_document(&doc), err("\"read_bytes\" is duplicated in the rights clause."));
    doc.uses = vec![dir(Some(vec![token("w*"), token("x*")]))];
    assert_eq!(validate_document(&doc), err("\"x*\" is duplicated in the rights clause."));
    doc.uses = vec![dir(None)];
    assert_eq!(validate_document(&doc), err("Rights required for this use statement."));
}

#[test]
fn expose_clauses() {
    let mut doc = empty_doc();
    doc.exposes = vec![expose(
        CapabilityClause { service: Some(s("/loggers")), ..clause("expose") },
        Refs::One(named("missing")),
    )];
    assert_eq!(
        validate_document(&doc),
        err("\"expose\" source \"#missing\" does not appear in \"children\"")
    );

    doc.children = vec![child("logger")];
    let dir = Expose {
        rights: Some(vec![token("r*")]),
        ..expose(
            CapabilityClause { directory: Some(s("/thing")), ..clause("expose") },
            Refs::One(Ref::Self_),
        )
    };
    doc.exposes = vec![dir.clone(), dir.clone()];
    assert_eq!(
        validate_document(&doc),
        err("\"/thing\" is a duplicate \"expose\" target directory for \"realm\"")
    );

    doc.exposes = vec![expose(
        CapabilityClause { protocol: Some(OneOrMany::One(s("/svc/a"))), ..clause("expose") },
        Refs::Many(vec![named("logger"), Ref::Self_]),
    )];
    assert_eq!(
        validate_document(&doc),
        err("\"protocol\" capabilities cannot have multiple \"from\" clauses")
    );

    doc.exposes = vec![Expose {
        to: Some(ExposeTo::Framework),
        subdir: Some(s("blob")),
        ..dir.clone()
    }];
    assert_eq!(
        validate_document(&doc),
        err("`subdir` is not supported for expose to framework. Directly expose the subdirectory instead.")
    );

    doc.exposes = vec![Expose {
        to: Some(ExposeTo::Framework),
        ..expose(
            CapabilityClause { protocol: Some(OneOrMany::One(s("/svc/a"))), ..clause("expose") },
            Refs::One(named("logger")),
        )
    }];
    assert_eq!(validate_document(&doc), err("Expose to framework can only be done from self."));

    doc.exposes = vec![expose(
        CapabilityClause { resolver: Some(s("pkg_resolver")), ..clause("expose") },
        Refs::One(Ref::Self_),
    )];
    assert_eq!(
        validate_document(&doc),
        err("Resolver \"pkg_resolver\" is exposed from self, so it must be declared in \"resolvers\"")
    );

    doc.exposes = vec![expose(
        CapabilityClause { directory: Some(s("/thing")), ..clause("expose") },
        Refs::One(Ref::Self_),
    )];
    assert_eq!(
        validate_document(&doc),
        err("Rights required for this expose statement as it is exposing from self.")
    );
}

#[test]
fn offer_clauses() {
    let mut doc = empty_doc();
    doc.children = vec![child("logger"), child("echo_server")];
    let proto = |from: Refs, to: &[&str]| {
        offer(
            CapabilityClause { protocol: Some(OneOrMany::One(s("/svc/l"))), ..clause("offer") },
            from,
            to,
        )
    };
    doc.offers = vec![proto(Refs::One(named("missing")), &["#echo_server"])];
    doc.offers[0].to = vec![s("echo_server")];
    assert_eq!(
        validate_document(&doc),
        err("\"offer\" source \"#missing\" does not appear in \"children\"")
    );
    doc.offers = vec![proto(Refs::One(Ref::Realm), &["missing"])];
    assert_eq!(
        validate_document(&doc),
        err("\"#missing\" is an \"offer\" target but it does not appear in \"children\" or \"collections\"")
    );
    doc.offers = vec![proto(Refs::One(named("logger")), &["logger"])];
    assert_eq!(validate_document(&doc), err("Offer target \"#logger\" is same as source"));
    doc.offers = vec![
        proto(Refs::One(Ref::Realm), &["echo_server"]),
        proto(Refs::One(Ref::Self_), &["echo_server"]),
    ];
    assert_eq!(
        validate_document(&doc),
        err("\"/svc/l\" is a duplicate \"offer\" target protocol for \"#echo_server\"")
    );
    let cache = |to: &[&str]| {
        offer(
            CapabilityClause { storage: Some(s("cache")), ..clause("offer") },
            Refs::One(named("minfs")),
            to,
        )
    };
    doc.storage = vec![Storage { name: s("minfs"), from: named("logger") }];
    doc.offers = vec![cache(&["logger"])];
    assert_eq!(validate_document(&doc), err("Storage offer target \"#logger\" is same as source"));
    doc.offers = vec![cache(&["echo_server"]), cache(&["echo_server"])];
    assert_eq!(
        validate_document(&doc),
        err("\"cache\" is a duplicate \"offer\" target storage type for \"#echo_server\"")
    );
    doc.offers = vec![Offer {
        clause: CapabilityClause {
            storage: Some(s("cache")),
            alias: Some(NameOrPath::Name(s("c"))),
            ..clause("offer")
        },
        ..cache(&["echo_server"])
    }];
    assert_eq!(validate_document(&doc), err("\"as\" field cannot be used for storage offer targets"));
    doc.offers = vec![Offer {
        from: Refs::One(named("nowhere")),
        ..cache(&["echo_server"])
    }];
    assert_eq!(
        validate_document(&doc),
        err("\"offer\" source \"#nowhere\" does not appear in \"storage\"")
    );
    doc.offers = vec![Offer {
        dependency: Some(Dependency::Strong),
        ..offer(
            CapabilityClause { service: Some(s("/svc/s")), ..clause("offer") },
            Refs::One(Ref::Realm),
            &["echo_server"],
        )
    }];
    assert_eq!(
        validate_document(&doc),
        err("Dependency can only be provided for protocol and directory capabilities")
    );
}

#[test]
fn declarations_and_environments() {
    let mut doc = empty_doc();
    doc.children = vec![child("logger"), child("logger")];
    assert_eq!(
        validate_document(&doc),
        err("identifier \"logger\" is defined twice, once in \"children\" and once in \"children\"")
    );
    doc.children = vec![Child { name: s("logger"), environment: Some(s("foo_env")) }];
    assert_eq!(validate_document(&doc), err("\"foo_env\" does not appear in \"environments\""));
    doc.children = vec![];
    doc.collections = vec![Collection { name: s("modular"), environment: Some(s("foo_env")) }];
    assert_eq!(validate_document(&doc), err("\"foo_env\" does not appear in \"environments\""));
    doc.collections = vec![];
    doc.storage = vec![Storage { name: s("minfs"), from: named("missing") }];
    assert_eq!(
        validate_document(&doc),
        err("\"storage\" source \"#missing\" does not appear in \"children\"")
    );
    doc.storage = vec![];
    doc.runners = vec![Runner { name: s("elf"), from: named("missing") }];
    assert_eq!(
        validate_document(&doc),
        err("\"runner\" source \"#missing\" does not appear in \"children\"")
    );
    doc.runners = vec![];
    doc.environments = vec![Environment { extends: Some(Extends::Nothing), ..env("my_env") }];
    assert_eq!(
        validate_document(&doc),
        err("'__stop_timeout_ms' must be provided if the environment does not extend another environment")
    );
    let reg = |runner: &str, alias: Option<&str>| RunnerRegistration {
        runner: s(runner),
        from: Ref::Realm,
        alias: alias.map(s),
    };
    doc.environments = vec![Environment {
        runners: vec![reg("dart", None), reg("other-dart", Some("dart"))],
        ..env("my_env")
    }];
    assert_eq!(
        validate_document(&doc),
        err("Duplicate runners registered under name \"dart\": \"other-dart\" and \"dart\".")
    );
    doc.environments = vec![Environment {
        runners: vec![RunnerRegistration { runner: s("elf"), from: named("missing_child"), alias: None }],
        ..env("my_env")
    }];
    assert_eq!(
        validate_document(&doc),
        err("\"elf\" runner source \"#missing_child\" does not appear in \"children\"")
    );
    let res = |resolver: &str| ResolverRegistration {
        resolver: s(resolver),
        scheme: s("fuchsia-pkg"),
        from: Ref::Realm,
    };
    doc.environments = vec![Environment {
        resolvers: vec![res("pkg_resolver"), res("base_resolver")],
        ..env("my_env")
    }];
    assert_eq!(
        validate_document(&doc),
        err("scheme \"fuchsia-pkg\" for resolver \"base_resolver\" is already registered; previously registered to resolver \"pkg_resolver\".")
    );
}

#[test]
fn strong_dependency_cycles_are_refused() {
    let mut doc = empty_doc();
    doc.environments = vec![Environment {
        runners: vec![RunnerRegistration { runner: s("elf"), from: named("child"), alias: None }],
        ..env("my_env")
    }];
    doc.children = vec![Child { name: s("child"), environment: Some(s("my_env")) }];
    assert_eq!(
        validate_document(&doc),
        err("Strong dependency cycles were found. Break the cycle by removing a \
            dependency or marking an offer as weak. Cycles: \
            {{child child -> environment my_env -> child child}}")
    );

    doc.environments = vec![Environment {
        resolvers: vec![ResolverRegistration {
            resolver: s("pkg_resolver"),
            scheme: s("fuchsia-pkg"),
            from: named("child"),
        }],
        ..env("my_env")
    }];
    assert_eq!(
        validate_document(&doc),
        err("Strong dependency cycles were found. Break the cycle by removing a \
            dependency or marking an offer as weak. \
            Cycles: {{child child -> environment my_env -> child child}}")
    );

    let mut doc = empty_doc();
    doc.environments = vec![Environment {
        resolvers: vec![ResolverRegistration {
            resolver: s("pkg_resolver"),
            scheme: s("fuchsia-pkg"),
            from: named("b"),
        }],
        ..env("my_env")
    }];
    doc.children = vec![Child { name: s("a"), environment: Some(s("my_env")) }, child("b")];
    let log = offer(
        CapabilityClause { protocol: Some(OneOrMany::One(s("/svc/fuchsia.logger.Log"))), ..clause("offer") },
        Refs::One(named("a")),
        &["b"],
    );
    doc.offers = vec![Offer { dependency: Some(Dependency::Strong), ..log.clone() }];
    assert_eq!(
        validate_document(&doc),
        err("Strong dependency cycles were found. Break the cycle by removing a dependency \
            or marking an offer as weak. \
            Cycles: {{child a -> child b -> environment my_env -> child a}}")
    );
    doc.offers = vec![Offer { dependency: Some(Dependency::WeakForMigration), ..log }];
    assert_eq!(validate_document(&doc), Ok(()));
}

#[test]
fn offer_dependency_cycles_are_listed() {
    let mut doc = empty_doc();
    doc.children = vec![child("a"), child("b"), child("c"), child("d")];
    let cl = |f: fn(CapabilityClause) -> CapabilityClause| f(clause("offer"));
    doc.offers = vec![
        Offer {
            dependency: Some(Dependency::Strong),
            ..offer(
                cl(|c| CapabilityClause { protocol: Some(OneOrMany::One(s("/svc/fuchsia.logger.Log"))), ..c }),
                Refs::One(named("a")),
                &["b"],
            )
        },
        offer(cl(|c| CapabilityClause { directory: Some(s("/data")), ..c }), Refs::One(named("b")), &["c"]),
        offer(cl(|c| CapabilityClause { service: Some(s("/dev/ethernet")), ..c }), Refs::One(named("c")), &["a"]),
        offer(cl(|c| CapabilityClause { runner: Some(s("elf")), ..c }), Refs::One(named("b")), &["d"]),
        offer(cl(|c| CapabilityClause { resolver: Some(s("http")), ..c }), Refs::One(named("d")), &["b"]),
    ];
    assert_eq!(
        validate_document(&doc),
        err("Strong dependency cycles were found. Break the cycle by removing a \
            dependency or marking an offer as weak. Cycles: \
            {{child a -> child b -> child c -> child a}, {child b -> child d -> child b}}")
    );
    assert!(DEPENDENCY_CYCLE.starts_with("Strong dependency cycles were found."));
}

#[test]
fn listed_cycles() {
    let c = |n: &str| DependencyNode::Child(s(n));
    let e = |n: &str| DependencyNode::Environment(s(n));
    let cycles = find_cycles(&vec![(e("x"), c("b")), (c("b"), e("x")), (c("a"), c("a"))]);
    assert_eq!(format_cycles(&cycles), "{{child a -> child a}, {child b -> environment x -> child b}}");
    assert!(find_cycles(&vec![(c("a"), c("b"))]).is_empty());
    assert_eq!(format_cycles(&vec![]), "{}");
}

#[test]
fn acyclic_graphs() {
    let c = |n: &str| DependencyNode::Child(s(n));
    assert!(is_acyclic(&vec![]));
    assert!(is_acyclic(&vec![(c("a"), c("b")), (c("b"), c("c")), (c("a"), c("c"))]));
    assert!(!is_acyclic(&vec![(c("a"), c("a"))]));
    assert!(!is_acyclic(&vec![(c("a"), c("b")), (c("b"), c("c")), (c("c"), c("a"))]));
    assert!(is_acyclic(&vec![(c("a"), DependencyNode::Environment(s("a")))]));
}

#[test]
fn programs_need_runners() {
    let mut doc = empty_doc();
    doc.program = true;
    assert_eq!(validate_document(&doc), err(PROGRAM_WITHOUT_RUNNER));
    doc.uses = vec![use_of(CapabilityClause { runner: Some(s("elf")), ..clause("use") })];
    assert_eq!(validate_document(&doc), Ok(()));
    assert_eq!(validate_runner_specified(false, &vec![]), Ok(()));
    assert_eq!(validate_runner_specified(true, &doc.uses), Ok(()));
}

#[test]
fn context_checks_one_clause_at_a_time() {
    let mut doc = empty_doc();
    doc.children = vec![child("logger")];
    let ctx = ValidationContext::new(&doc).expect("no aliased events");
    assert!(ctx.event_names.is_empty());
    let mut used: Vec<CapabilityId> = vec![];
    let u = use_of(CapabilityClause { protocol: Some(OneOrMany::One(s("/svc/a"))), ..clause("use") });
    assert_eq!(ctx.validate_use(&u, &mut used), Ok(()));
    assert_eq!(used, vec![CapabilityId::Protocol(s("/svc/a"))]);
    assert_eq!(
        ctx.validate_use(&u, &mut used),
        err("\"/svc/a\" is a duplicate \"use\" target protocol")
    );
    assert_eq!(ctx.validate_component_ref("\"offer\" source", &named("logger")), Ok(()));
}

#[test]
fn manifest_file_extensions() {
    assert_eq!(manifest_format_of("meta/foo.cml"), Ok(ManifestFormat::Cml));
    assert_eq!(manifest_format_of("foo.cmx"), Ok(ManifestFormat::Cmx));
    assert_eq!(
        manifest_format_of("foo.json"),
        Err(ManifestError::InvalidArgs(s(BAD_EXTENSION)))
    );
    assert_eq!(manifest_format_of("cml"), Err(ManifestError::InvalidArgs(s(BAD_EXTENSION))));
    assert_eq!(
        BAD_EXTENSION,
        "Input file does not have a component manifest extension (.cml or .cmx)"
    );
}
