use fuchsia_lib::cmc::validate::{
    ensure_no_duplicate_names, ensure_no_duplicate_values,
    CapabilityClause, CapabilityId, DependencyNode, ManifestError, NameOrPath, OneOrMany,
    AS_AND_FILTER_WITH_MANY_EVENTS, AS_WITH_MANY_EVENTS, AS_WITH_MANY_PROTOCOLS,
    DEFAULT_EVENT_STREAM_PATH, FILTER_WITH_MANY_EVENTS,
};

fn s(x: &str) -> String {
    x.to_string()
}

fn empty_offer() -> CapabilityClause {
    CapabilityClause {
        decl_type: s("offer"),
        supported: vec![s("service"), s("protocol"), s("directory"), s("storage")],
        service: None,
        protocol: None,
        directory: None,
        runner: None,
        resolver: None,
        event: None,
        event_stream: None,
        storage: None,
        alias: None,
        filter: false,
    }
}

fn empty_use() -> CapabilityClause {
    CapabilityClause { decl_type: s("use"), ..empty_offer() }
}

#[test]
fn test_capability_id() {
    // Simple tests.
    assert_eq!(
        CapabilityId::from_clause(&CapabilityClause { service: Some(s("/a")), ..empty_offer() }),
        Ok(vec![CapabilityId::Service(s("/a"))])
    );
    assert_eq!(
        CapabilityId::from_clause(&CapabilityClause {
            protocol: Some(OneOrMany::One(s("/a"))),
            ..empty_offer()
        }),
        Ok(vec![CapabilityId::Protocol(s("/a"))])
    );
    assert_eq!(
        CapabilityId::from_clause(&CapabilityClause {
            protocol: Some(OneOrMany::Many(vec![s("/a"), s("/b")])),
            ..empty_offer()
        }),
        Ok(vec![CapabilityId::Protocol(s("/a")), CapabilityId::Protocol(s("/b"))])
    );
    assert_eq!(
        CapabilityId::from_clause(&CapabilityClause { directory: Some(s("/a")), ..empty_offer() }),
        Ok(vec![CapabilityId::Directory(s("/a"))])
    );
    assert_eq!(
        CapabilityId::from_clause(&CapabilityClause { storage: Some(s("cache")), ..empty_offer() }),
        Ok(vec![CapabilityId::StorageType(s("cache"))])
    );

    // "as" aliasing.
    assert_eq!(
        CapabilityId::from_clause(&CapabilityClause {
            service: Some(s("/a")),
            alias: Some(NameOrPath::Path(s("/b"))),
            ..empty_offer()
        }),
        Ok(vec![CapabilityId::Service(s("/b"))])
    );

    // Error case.
    assert!(CapabilityId::from_clause(&empty_offer()).is_err());
}

#[test]
fn from_clause_missing_keyword_lists_supported_keywords() {
    assert_eq!(
        CapabilityId::from_clause(&empty_offer()),
        Err(ManifestError::Validate(s(
            "`offer` declaration is missing a capability keyword, one of: \"service\", \"protocol\", \"directory\", \"storage\""
        )))
    );
    let none_supported = CapabilityClause { supported: vec![], ..empty_use() };
    assert_eq!(
        CapabilityId::from_clause(&none_supported),
        Err(ManifestError::Validate(s(
            "`use` declaration is missing a capability keyword, one of: "
        )))
    );
}

#[test]
fn from_clause_first_keyword_decides() {
    let both = CapabilityClause {
        service: Some(s("/svc/a")),
        directory: Some(s("/data")),
        ..empty_offer()
    };
    assert_eq!(CapabilityId::from_clause(&both), Ok(vec![CapabilityId::Service(s("/svc/a"))]));
}

#[test]
fn from_clause_protocol_list_aliases() {
    let one = CapabilityClause {
        protocol: Some(OneOrMany::Many(vec![s("/a")])),
        alias: Some(NameOrPath::Path(s("/c"))),
        ..empty_offer()
    };
    assert_eq!(CapabilityId::from_clause(&one), Ok(vec![CapabilityId::Protocol(s("/c"))]));
    let two = CapabilityClause {
        protocol: Some(OneOrMany::Many(vec![s("/a"), s("/b")])),
        alias: Some(NameOrPath::Path(s("/c"))),
        ..empty_offer()
    };
    assert_eq!(
        CapabilityId::from_clause(&two),
        Err(ManifestError::Validate(s(AS_WITH_MANY_PROTOCOLS)))
    );
    let named = CapabilityClause {
        protocol: Some(OneOrMany::Many(vec![s("/a")])),
        alias: Some(NameOrPath::Name(s("c"))),
        ..empty_offer()
    };
    assert_eq!(CapabilityId::from_clause(&named), Err(ManifestError::ExpectedPath));
}

#[test]
fn from_clause_names_and_paths() {
    let runner = CapabilityClause {
        runner: Some(s("elf")),
        alias: Some(NameOrPath::Name(s("my_elf"))),
        ..empty_use()
    };
    assert_eq!(CapabilityId::from_clause(&runner), Ok(vec![CapabilityId::Runner(s("my_elf"))]));
    let runner_path = CapabilityClause {
        runner: Some(s("elf")),
        alias: Some(NameOrPath::Path(s("/elf"))),
        ..empty_use()
    };
    assert_eq!(CapabilityId::from_clause(&runner_path), Err(ManifestError::ExpectedName));
    let resolver = CapabilityClause { resolver: Some(s("pkg")), ..empty_offer() };
    assert_eq!(CapabilityId::from_clause(&resolver), Ok(vec![CapabilityId::Resolver(s("pkg"))]));
    let dir_named = CapabilityClause {
        directory: Some(s("/data")),
        alias: Some(NameOrPath::Name(s("data"))),
        ..empty_offer()
    };
    assert_eq!(CapabilityId::from_clause(&dir_named), Err(ManifestError::ExpectedPath));
}

#[test]
fn from_clause_events() {
    let one = CapabilityClause {
        event: Some(OneOrMany::One(s("started"))),
        alias: Some(NameOrPath::Name(s("began"))),
        ..empty_use()
    };
    assert_eq!(CapabilityId::from_clause(&one), Ok(vec![CapabilityId::Event(s("began"))]));
    let many = CapabilityClause {
        event: Some(OneOrMany::Many(vec![s("started"), s("stopped")])),
        ..empty_use()
    };
    assert_eq!(
        CapabilityId::from_clause(&many),
        Ok(vec![CapabilityId::Event(s("started")), CapabilityId::Event(s("stopped"))])
    );
    let single_filtered = CapabilityClause {
        event: Some(OneOrMany::Many(vec![s("started")])),
        filter: true,
        ..empty_use()
    };
    assert_eq!(
        CapabilityId::from_clause(&single_filtered),
        Ok(vec![CapabilityId::Event(s("started"))])
    );
    let aliased_many = CapabilityClause {
        event: Some(OneOrMany::Many(vec![s("started"), s("stopped")])),
        alias: Some(NameOrPath::Name(s("x"))),
        ..empty_use()
    };
    assert_eq!(
        CapabilityId::from_clause(&aliased_many),
        Err(ManifestError::Validate(s(AS_WITH_MANY_EVENTS)))
    );
    let filtered_many = CapabilityClause { filter: true, ..many.clone() };
    assert_eq!(
        CapabilityId::from_clause(&filtered_many),
        Err(ManifestError::Validate(s(FILTER_WITH_MANY_EVENTS)))
    );
    let both_many = CapabilityClause { filter: true, ..aliased_many.clone() };
    assert_eq!(
        CapabilityId::from_clause(&both_many),
        Err(ManifestError::Validate(s(AS_AND_FILTER_WITH_MANY_EVENTS)))
    );
}

#[test]
fn from_clause_event_stream_default_path() {
    let stream = CapabilityClause { event_stream: Some(vec![s("started")]), ..empty_use() };
    assert_eq!(
        CapabilityId::from_clause(&stream),
        Ok(vec![CapabilityId::EventStream(s("/svc/fuchsia.sys2.EventStream"))])
    );
    assert_eq!(DEFAULT_EVENT_STREAM_PATH, "/svc/fuchsia.sys2.EventStream");
    let renamed = CapabilityClause {
        event_stream: Some(vec![s("started")]),
        alias: Some(NameOrPath::Path(s("/svc/my_stream"))),
        ..empty_use()
    };
    assert_eq!(
        CapabilityId::from_clause(&renamed),
        Ok(vec![CapabilityId::EventStream(s("/svc/my_stream"))])
    );
}

#[test]
fn capability_id_strings_and_dirs() {
    let svc = CapabilityId::Service(s("/svc/fuchsia.Foo"));
    assert_eq!(svc.as_str(), "/svc/fuchsia.Foo");
    assert_eq!(svc.type_str(), "service");
    assert_eq!(svc.get_dir_path(), Some(s("/svc")));
    let proto = CapabilityId::Protocol(s("/svc/a/b"));
    assert_eq!(proto.get_dir_path(), Some(s("/svc/a")));
    assert_eq!(CapabilityId::Protocol(s("/")).get_dir_path(), None);
    let dir = CapabilityId::Directory(s("/data"));
    assert_eq!(dir.get_dir_path(), Some(s("/data")));
    assert_eq!(dir.type_str(), "directory");
    assert_eq!(CapabilityId::Runner(s("elf")).get_dir_path(), None);
    assert_eq!(CapabilityId::StorageType(s("cache")).type_str(), "storage type");
    assert_eq!(CapabilityId::EventStream(s("/x")).type_str(), "event_stream");
    assert_eq!(CapabilityId::Event(s("started")).as_str(), "started");
}

#[test]
fn duplicate_names_are_refused() {
    let ok = vec![(s("a"), s("children")), (s("b"), s("collections")), (s("c"), s("storage"))];
    assert_eq!(ensure_no_duplicate_names(&ok), Ok(()));
    let dup = vec![
        (s("a"), s("children")),
        (s("b"), s("collections")),
        (s("a"), s("storage")),
        (s("b"), s("runners")),
    ];
    assert_eq!(
        ensure_no_duplicate_names(&dup),
        Err(ManifestError::Validate(s(
            "identifier \"a\" is defined twice, once in \"storage\" and once in \"children\""
        )))
    );
    assert_eq!(ensure_no_duplicate_names(&vec![]), Ok(()));
}

#[test]
fn duplicate_values_are_refused() {
    assert_eq!(ensure_no_duplicate_values(&vec![s("x"), s("y")]), Ok(()));
    assert_eq!(
        ensure_no_duplicate_values(&vec![s("x"), s("y"), s("z"), s("y"), s("x")]),
        Err(ManifestError::Validate(s("Found duplicate value \"y\" in array.")))
    );
}

#[test]
fn dependency_node_descriptions() {
    assert_eq!(DependencyNode::Child(s("logger")).describe(), "child logger");
    assert_eq!(DependencyNode::Environment(s("env")).describe(), "environment env");
}
