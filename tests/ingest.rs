use camrete::catalog::{
    build_snapshot, BuildRecord, DownloadCount, RepoAsset, RepositoryRef, RepositoryRefList,
};
use camrete::client::{
    archive_format, content_type, finish_asset, ArchiveFormat, Catalog, DownloadProgressReporter,
    RawAsset, RepoRecord, RepoUnpackError, Repository,
};
use camrete::catalog::RepoSnapshot;
use camrete::game::{GameVersion, GameVersionParseError};
use camrete::json::{
    relationship_groups, AnyOfRelationshipDescriptor, DirectRelationshipDescriptor,
    DownloadChecksum, JsonBuilds, JsonError, JsonModule, MetaRelationship, ModuleKind, ModuleResources,
    RelationshipDescriptor, RelationshipType, ReleaseStatus,
};
use camrete::spec_version::SpecVersion;

fn release(name: &str, version: &str, summary: &str) -> JsonModule {
    JsonModule {
        spec_version: SpecVersion { major: 1, minor: 0 },
        name: name.to_string(),
        identifier: name.to_string(),
        version: version.to_string(),
        kind: ModuleKind::Package,
        summary: summary.to_string(),
        description: None,
        release_status: ReleaseStatus::Stable,
        comment: None,
        author: vec!["a".to_string()],
        download: vec!["https://h/f".to_string()],
        download_size: None,
        download_hash: DownloadChecksum::default(),
        download_content_type: None,
        install_size: None,
        license: vec![],
        ksp_version: GameVersion::empty(),
        ksp_version_min: GameVersion::empty(),
        ksp_version_max: GameVersion::empty(),
        ksp_version_strict: false,
        resources: ModuleResources::default(),
        tags: vec![],
        localizations: vec![],
        depends: vec![],
        recommends: vec![],
        suggests: vec![],
        supports: vec![],
        conflicts: vec![],
        replaced_by: None,
        install: vec![],
        release_date: None,
    }
}

fn catalog_with_repo() -> Catalog {
    let mut catalog = Catalog::new();
    catalog.repos.push(RepoRecord {
        repository: Repository {
            repo_id: 1,
            name: "KSP-default".to_string(),
            url: "https://example.org/master.tar.gz".to_string(),
            priority: 0,
        },
        etag: None,
        snapshot: RepoSnapshot { modules: vec![], builds: vec![], repo_refs: vec![] },
    });
    catalog
}

fn slugs(catalog: &Catalog) -> Vec<String> {
    catalog.repos[0].snapshot.modules.iter().map(|m| m.slug.clone()).collect()
}

fn versions_of(catalog: &Catalog, slug: &str) -> Vec<(String, usize, bool)> {
    let m = catalog.repos[0].snapshot.modules.iter().find(|m| m.slug == slug).unwrap();
    m.releases
        .iter()
        .map(|r| (r.version.as_str().to_string(), r.sort_index, r.up_to_date))
        .collect()
}

#[test]
fn empty_repo_ingests() {
    let mut catalog = catalog_with_repo();
    let result = catalog.ingest(0, Some("\"abc\"".to_string()), vec![]);
    assert_eq!(result, Ok(()));
    assert_eq!(catalog.repos.len(), 1);
    assert_eq!(catalog.repos[0].repository.name, "KSP-default");
    assert!(catalog.repos[0].snapshot.modules.is_empty());
    assert_eq!(catalog.repos[0].etag, Some("\"abc\"".to_string()));
}

#[test]
fn single_release_is_up_to_date() {
    let mut catalog = catalog_with_repo();
    let assets = vec![Ok(RepoAsset::Release(release("Foo", "1.0", "s")))];
    assert_eq!(catalog.ingest(0, None, assets), Ok(()));
    assert_eq!(slugs(&catalog), vec!["Foo".to_string()]);
    assert_eq!(versions_of(&catalog, "Foo"), vec![("1.0".to_string(), 0, true)]);
}

#[test]
fn releases_sort_naturally() {
    let mut catalog = catalog_with_repo();
    let assets = vec![
        Ok(RepoAsset::Release(release("Foo", "1.10", "s"))),
        Ok(RepoAsset::Release(release("Foo", "1.0", "s"))),
    ];
    assert_eq!(catalog.ingest(0, None, assets), Ok(()));
    assert_eq!(
        versions_of(&catalog, "Foo"),
        vec![("1.0".to_string(), 0, false), ("1.10".to_string(), 1, true)]
    );

    let assets = vec![
        Ok(RepoAsset::Release(release("Foo", "1.0", "s"))),
        Ok(RepoAsset::Release(release("Foo", "1.10", "s"))),
        Ok(RepoAsset::Release(release("Foo", "1.2", "s"))),
    ];
    assert_eq!(catalog.ingest(0, None, assets), Ok(()));
    assert_eq!(
        versions_of(&catalog, "Foo"),
        vec![
            ("1.0".to_string(), 0, false),
            ("1.2".to_string(), 1, false),
            ("1.10".to_string(), 2, true)
        ]
    );
}

#[test]
fn reingest_replaces_modules() {
    let mut catalog = catalog_with_repo();
    let a = vec![
        Ok(RepoAsset::Release(release("X", "1", "s"))),
        Ok(RepoAsset::Release(release("Y", "1", "s"))),
    ];
    assert_eq!(catalog.ingest(0, None, a), Ok(()));
    assert_eq!(slugs(&catalog), vec!["X".to_string(), "Y".to_string()]);
    let b = vec![
        Ok(RepoAsset::Release(release("Y", "2", "s"))),
        Ok(RepoAsset::Release(release("Z", "1", "s"))),
    ];
    assert_eq!(catalog.ingest(0, None, b), Ok(()));
    assert_eq!(slugs(&catalog), vec!["Y".to_string(), "Z".to_string()]);
    assert_eq!(versions_of(&catalog, "Y"), vec![("2".to_string(), 0, true)]);
    assert_eq!(catalog.repos[0].repository.repo_id, 1);
}

#[test]
fn duplicate_version_keeps_one_release() {
    let mut catalog = catalog_with_repo();
    let assets = vec![
        Ok(RepoAsset::Release(release("Foo", "1.0", "first"))),
        Ok(RepoAsset::Release(release("Foo", "1.0", "second"))),
    ];
    assert_eq!(catalog.ingest(0, None, assets), Ok(()));
    let module = &catalog.repos[0].snapshot.modules[0];
    assert_eq!(module.releases.len(), 1);
    assert_eq!(module.releases[0].release.summary, "second");
    assert!(module.releases[0].up_to_date);
}

#[test]
fn bad_asset_fails_whole_ingest() {
    let mut catalog = catalog_with_repo();
    let first = vec![Ok(RepoAsset::Release(release("Foo", "1.0", "s")))];
    assert_eq!(catalog.ingest(0, Some("one".to_string()), first), Ok(()));

    let bad = RepoUnpackError::InvalidJsonFile {
        source: JsonError::Parse("expected value at line 1 column 1".to_string()),
        url: "https://example.org/master.tar.gz".to_string(),
        path: "ksp/Bar/Bar-1.0.ckan".to_string(),
    };
    let second = vec![
        Ok(RepoAsset::Release(release("Bar", "2.0", "s"))),
        Err(bad.clone()),
        Ok(RepoAsset::Release(release("Baz", "1.0", "s"))),
    ];
    assert_eq!(catalog.ingest(0, Some("two".to_string()), second), Err(bad));
    assert_eq!(slugs(&catalog), vec!["Foo".to_string()]);
    assert_eq!(versions_of(&catalog, "Foo"), vec![("1.0".to_string(), 0, true)]);
    assert_eq!(catalog.repos[0].etag, Some("one".to_string()));
}

#[test]
fn download_counts_make_placeholder_modules() {
    let snapshot = build_snapshot(vec![
        RepoAsset::DownloadCounts(vec![
            DownloadCount { slug: "Foo".to_string(), count: 5 },
            DownloadCount { slug: "Ghost".to_string(), count: 2 },
        ]),
        RepoAsset::Release(release("Foo", "1.0", "s")),
        RepoAsset::DownloadCounts(vec![DownloadCount { slug: "Foo".to_string(), count: 9 }]),
        RepoAsset::Builds(vec![BuildRecord { build_id: 7, version: GameVersion::new(Some(1), Some(2), None, None) }]),
        RepoAsset::RepositoryRefList(RepositoryRefList {
            repositories: vec![RepositoryRef { name: "mirror".to_string(), url: "https://m".to_string(), priority: 3 }],
        }),
    ]);
    let counts: Vec<(String, i32, usize)> = snapshot
        .modules
        .iter()
        .map(|m| (m.slug.clone(), m.download_count, m.releases.len()))
        .collect();
    assert_eq!(
        counts,
        vec![("Foo".to_string(), 9, 1), ("Ghost".to_string(), 2, 0)]
    );
    assert_eq!(snapshot.builds.len(), 1);
    assert_eq!(snapshot.builds[0].build_id, 7);
    assert_eq!(snapshot.repo_refs[0].priority, 3);
}

#[test]
fn verify_refuses_conflicting_constraints() {
    let mut m = release("Foo", "1.0", "s");
    assert_eq!(m.verify(), Ok(()));
    m.ksp_version = GameVersion::new(Some(1), None, None, None);
    assert_eq!(m.verify(), Ok(()));
    m.ksp_version_max = GameVersion::new(Some(2), None, None, None);
    assert_eq!(
        m.verify(),
        Err(JsonError::DuplicateVersionConstraint {
            generic_constraint: GameVersion::new(Some(1), None, None, None),
            specific_is_max: true,
            specific_constraint: GameVersion::new(Some(2), None, None, None),
        })
    );
    m.ksp_version_max = GameVersion::empty();
    m.ksp_version_min = GameVersion::new(Some(0), Some(9), None, None);
    assert!(matches!(
        m.verify(),
        Err(JsonError::DuplicateVersionConstraint { specific_is_max: false, .. })
    ));

    let mut m = release("Foo", "1.0", "s");
    m.replaced_by = Some(DirectRelationshipDescriptor {
        name: "Bar".to_string(),
        max_version: Some("2".to_string()),
        min_version: None,
        version: None,
    });
    assert_eq!(m.verify(), Err(JsonError::DisallowedMaxVersionInReplacement));
}

fn direct(name: &str, version: Option<&str>, max: Option<&str>) -> MetaRelationship {
    MetaRelationship {
        descriptor: RelationshipDescriptor::Direct(DirectRelationshipDescriptor {
            name: name.to_string(),
            max_version: max.map(|s| s.to_string()),
            min_version: Some("0.1".to_string()),
            version: version.map(|s| s.to_string()),
        }),
        choice_help_text: None,
        suppress_recommendations: false,
    }
}

#[test]
fn relationship_groups_are_numbered_in_order() {
    let mut m = release("Foo", "1.0", "s");
    m.depends = vec![direct("A", Some("1"), None)];
    m.suggests = vec![MetaRelationship {
        descriptor: RelationshipDescriptor::AnyOf(AnyOfRelationshipDescriptor {
            any_of: vec![
                direct("B", None, Some("3")),
                MetaRelationship {
                    descriptor: RelationshipDescriptor::AnyOf(AnyOfRelationshipDescriptor {
                        any_of: vec![direct("C", None, None), direct("D", Some("4"), Some("5"))],
                    }),
                    choice_help_text: None,
                    suppress_recommendations: false,
                },
            ],
        }),
        choice_help_text: Some("pick one".to_string()),
        suppress_recommendations: true,
    }];
    m.conflicts = vec![direct("E", None, None)];

    let groups = relationship_groups(&m);
    let kinds: Vec<(usize, RelationshipType)> = groups.iter().map(|g| (g.ordinal, g.rel_type)).collect();
    assert_eq!(
        kinds,
        vec![
            (0, RelationshipType::Depends),
            (1, RelationshipType::Suggests),
            (2, RelationshipType::Conflicts)
        ]
    );
    let members: Vec<(usize, String, Option<String>)> = groups[1]
        .members
        .iter()
        .map(|r| (r.ordinal, r.target_name.clone(), r.target_version.clone()))
        .collect();
    assert_eq!(
        members,
        vec![
            (0, "B".to_string(), Some("3".to_string())),
            (1, "C".to_string(), None),
            (2, "D".to_string(), Some("5".to_string()))
        ]
    );
    assert_eq!(groups[1].choice_help_text, Some("pick one".to_string()));
    assert!(groups[1].suppress_recommendations);
    assert_eq!(groups[0].members[0].target_version, Some("1".to_string()));
    assert_eq!(groups[0].members[0].target_version_min, Some("0.1".to_string()));
    assert_eq!(m.suggests[0].descriptor.flatten().len(), 3);
}

#[test]
fn finishing_assets_checks_them() {
    let ok = finish_asset(RawAsset::Release(release("Foo", "1.0", "s")), "https://r", "Foo.ckan");
    assert!(matches!(ok, Ok(RepoAsset::Release(_))));

    let mut bad = release("Foo", "1.0", "s");
    bad.ksp_version = GameVersion::new(Some(1), None, None, None);
    bad.ksp_version_min = GameVersion::new(Some(1), None, None, None);
    let err = finish_asset(RawAsset::Release(bad), "https://r", "Foo.ckan");
    assert!(matches!(
        err,
        Err(RepoUnpackError::InvalidJsonFile { ref url, ref path, .. }) if url == "https://r" && path == "Foo.ckan"
    ));

    let builds = finish_asset(
        RawAsset::Builds(JsonBuilds { builds: vec![(1, "1.2.3".to_string()), (2, "any".to_string())] }),
        "https://r",
        "builds.json",
    );
    match builds {
        Ok(RepoAsset::Builds(b)) => {
            assert_eq!(b[0].version, GameVersion::new(Some(1), Some(2), Some(3), None));
            assert!(b[1].version.is_empty());
        },
        other => panic!("unexpected {:?}", other),
    }
    let builds = finish_asset(
        RawAsset::Builds(JsonBuilds { builds: vec![(1, "1.2".to_string()), (2, "1.2.3.4.5".to_string())] }),
        "https://r",
        "builds.json",
    );
    assert_eq!(
        builds.err(),
        Some(RepoUnpackError::GameVersionParse(GameVersionParseError::TooManyParts))
    );
}

#[test]
fn content_type_falls_back_to_the_url() {
    assert_eq!(content_type(Some("text/plain"), "/a.tar.gz"), Some("text/plain".to_string()));
    assert_eq!(content_type(None, "/master.tar.gz"), Some("application/gzip".to_string()));
    assert_eq!(content_type(None, "/master.tgz"), Some("application/gzip".to_string()));
    assert_eq!(content_type(None, "/master.zip"), Some("application/zip".to_string()));
    assert_eq!(content_type(None, "/master"), None);

    assert_eq!(archive_format(Some("application/gzip"), "u"), Ok(ArchiveFormat::TarGz));
    assert_eq!(archive_format(Some("application/x-gzip"), "u"), Ok(ArchiveFormat::TarGz));
    assert_eq!(
        archive_format(Some("application/zip"), "u"),
        Err(RepoUnpackError::UnsupportedContentType {
            content_type: "application/zip".to_string(),
            url: "u".to_string()
        })
    );
    assert_eq!(
        archive_format(None, "u"),
        Err(RepoUnpackError::MissingContentType { url: "u".to_string() })
    );
}

#[test]
fn progress_never_goes_back() {
    let mut p = DownloadProgressReporter::new(Some(100));
    let a = p.report_download_progress(40);
    assert_eq!(a.bytes_downloaded, 40);
    assert_eq!(a.bytes_expected, Some(100));
    let b = p.report_unpacked_item();
    assert_eq!((b.bytes_downloaded, b.items_unpacked), (40, 1));
    let c = p.report_download_progress(10);
    assert_eq!(c.bytes_downloaded, 40);
    let d = p.report_download_progress(90);
    assert_eq!((d.bytes_downloaded, d.items_unpacked), (90, 1));
    assert!(!d.is_computing_derived_data);
}

#[test]
fn side_lists_keep_their_positions() {
    let tags = vec!["parts".to_string(), "physics".to_string(), "parts".to_string()];
    assert_eq!(
        camrete::catalog::ordinal_rows(&tags),
        vec![(0, "parts".to_string()), (1, "physics".to_string()), (2, "parts".to_string())]
    );
    assert!(camrete::catalog::ordinal_rows(&Vec::new()).is_empty());
}

#[test]
fn unpacked_items_count_up_by_one() {
    let mut p = DownloadProgressReporter::new(None);
    assert_eq!(p.items_unpacked(), 0);
    assert_eq!(p.report_unpacked_item().items_unpacked, 1);
    assert_eq!(p.report_unpacked_item().items_unpacked, 2);
    assert_eq!(p.items_unpacked(), 2);
}
