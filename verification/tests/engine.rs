use scrap::accounts::{LoginOutcome, ProfileOutcome, RegisterOutcome};
use scrap::assets::{asset_url, hash_bytes, hex_encode};
use scrap::challenge::{AssetFile, Challenge, ChallengeDef};
use scrap::ctf::{Ctf, CtfDef};
use scrap::errors::LoadError;
use scrap::policy::standard_policy;
use scrap::reconcile::{load, RepoSnapshot};
use scrap::render::{render_markdown, rewrite_href};
use scrap::scoring::SubmitOutcome;
use scrap::store::CtfStore;
use scrap::timestamp::parse_rfc3339;

fn ctf_def(start: Option<&str>, stop: Option<&str>) -> CtfDef {
    CtfDef {
        title: String::from("example ctf"),
        home: String::from("# welcome"),
        start: start.map(String::from),
        stop: stop.map(String::from),
    }
}

fn challenge_def(slug: &str, flag: &str, files: Vec<AssetFile>) -> ChallengeDef {
    ChallengeDef {
        slug: String::from(slug),
        title: format!("title of {}", slug),
        author: String::from("author"),
        description: String::from("solve me"),
        tags: vec![String::from("misc")],
        files,
        flag: String::from(flag),
        enabled: true,
    }
}

fn snapshot(defs: Vec<ChallengeDef>, dirs: Vec<String>) -> RepoSnapshot {
    RepoSnapshot { ctf: ctf_def(None, None), challenges: defs, asset_dirs: dirs }
}

fn fresh_store() -> CtfStore {
    CtfStore::new_store(standard_policy())
}

fn store_with(defs: Vec<ChallengeDef>) -> CtfStore {
    let mut store = fresh_store();
    load(&mut store, &snapshot(defs, Vec::new())).expect("load");
    store
}

fn registered(store: &mut CtfStore, name: &str, cookie: &str) {
    let outcome = store.register(
        &String::from(name),
        &format!("{}@example.org", name),
        &String::from("hashed-password"),
        10,
    );
    assert!(matches!(outcome, RegisterOutcome::Created));
    let login = store.login(
        &String::from(name),
        &String::from("hashed-password"),
        &String::from(cookie),
    );
    assert!(matches!(login, LoginOutcome::LoggedIn));
}

#[test]
fn hex_encode_two_digits_per_byte() {
    assert_eq!(hex_encode(&vec![0x00u8, 0xff, 0x1a]), "00ff1a");
    assert_eq!(hex_encode(&vec![]), "");
}

#[test]
fn content_key_is_short_hex_and_content_addressed() {
    let a = hash_bytes(&vec![1u8, 2, 3]);
    let b = hash_bytes(&vec![1u8, 2, 3]);
    let c = hash_bytes(&vec![4u8, 5, 6]);
    assert_eq!(a, b);
    assert_ne!(a, c);
    assert_eq!(a.len(), 16);
    assert!(a.chars().all(|ch| ch.is_ascii_hexdigit() && !ch.is_ascii_uppercase()));
}

#[test]
fn asset_url_shape() {
    assert_eq!(
        asset_url(&String::from("a1b2"), &String::from("notes.txt")),
        "/static/files/a1b2/notes.txt"
    );
}

#[test]
fn rewrite_href_substitutes_known_targets() {
    let links = vec![(String::from("notes.txt"), String::from("/static/files/aa/notes.txt"))];
    assert_eq!(rewrite_href(&links, &String::from("notes.txt")), "/static/files/aa/notes.txt");
    assert_eq!(rewrite_href(&links, &String::from("https://example.org")), "https://example.org");
}

#[test]
fn rewrite_href_later_pair_wins() {
    let links = vec![
        (String::from("f"), String::from("/old")),
        (String::from("f"), String::from("/new")),
    ];
    assert_eq!(rewrite_href(&links, &String::from("f")), "/new");
}

#[test]
fn render_rewrites_inline_links_only() {
    let md = String::from("see [notes](notes.txt) and [site](https://example.org)");
    let links = vec![(String::from("notes.txt"), String::from("/static/files/aa/notes.txt"))];
    let html = render_markdown(&md, &links);
    assert!(html.contains("/static/files/aa/notes.txt"));
    assert!(html.contains("https://example.org"));
    assert!(html.contains("notes</a>"));
}

#[test]
fn render_converts_markdown() {
    let html = render_markdown(&String::from("# welcome"), &Vec::new());
    assert!(html.contains("<h1>welcome</h1>"));
}

#[test]
fn rfc3339_parses_epoch() {
    assert_eq!(parse_rfc3339(&String::from("1970-01-01T00:00:00+00:00")), Some(0));
    assert_eq!(parse_rfc3339(&String::from("2001-09-09T01:46:40+00:00")), Some(1_000_000_000));
    assert_eq!(parse_rfc3339(&String::from("yesterday")), None);
}

#[test]
fn ctf_new_rejects_bad_timestamp() {
    let def = ctf_def(Some("not a timestamp"), None);
    assert!(matches!(Ctf::new(&def), Err(LoadError::BadTimestamp)));
}

#[test]
fn challenge_new_plans_assets() {
    let def = challenge_def(
        "pwn1",
        "flag{abc}",
        vec![AssetFile { name: String::from("notes.txt"), bytes: vec![9u8, 9, 9] }],
    );
    let (ch, assets): (Challenge, _) = Challenge::new(&def);
    assert_eq!(assets.len(), 1);
    assert_eq!(assets[0].name, "notes.txt");
    assert_eq!(assets[0].hash, hash_bytes(&vec![9u8, 9, 9]));
    assert!(ch.description.contains("solve me"));
    assert_eq!(ch.slug, "pwn1");
}

#[test]
fn reconcile_assigns_sequential_ids_and_keeps_solves() {
    let mut store = store_with(vec![challenge_def("a", "flag{a}", vec![])]);
    registered(&mut store, "team1", "cookie1");
    let r = store.submit(
        &String::from("cookie1"),
        &String::from("a"),
        &String::from("flag{a}"),
        100,
    );
    assert!(matches!(r, SubmitOutcome::Credited));
    // A second pass with one more challenge keeps a's id and counter.
    load(
        &mut store,
        &snapshot(
            vec![challenge_def("a", "flag{a}", vec![]), challenge_def("b", "flag{b}", vec![])],
            Vec::new(),
        ),
    )
    .expect("load");
    let listing = store.challenge_listing(&String::from("cookie1"), 100);
    assert!(listing.available);
    assert_eq!(listing.entries.len(), 2);
    let a = listing.entries.iter().find(|e| e.slug == "a").unwrap();
    assert_eq!(a.solves, 1);
    assert!(a.solved);
    let b = listing.entries.iter().find(|e| e.slug == "b").unwrap();
    assert_eq!(b.solves, 0);
    assert!(!b.solved);
}

#[test]
fn reconcile_is_idempotent() {
    let defs = || {
        vec![
            challenge_def(
                "a",
                "flag{a}",
                vec![AssetFile { name: String::from("f.bin"), bytes: vec![1u8, 2] }],
            ),
            challenge_def("b", "flag{b}", vec![]),
        ]
    };
    let mut store = fresh_store();
    let first = load(&mut store, &snapshot(defs(), Vec::new())).expect("first");
    let listing_one = store.challenge_listing(&String::new(), 0);
    // The second pass sees exactly the directories the first pass stored.
    let dirs: Vec<String> = first.stored.iter().map(|a| a.hash.clone()).collect();
    let second = load(&mut store, &snapshot(defs(), dirs)).expect("second");
    let listing_two = store.challenge_listing(&String::new(), 0);
    assert_eq!(second.removed.len(), 0);
    assert_eq!(listing_one.entries.len(), listing_two.entries.len());
    for (x, y) in listing_one.entries.iter().zip(listing_two.entries.iter()) {
        assert_eq!(x.slug, y.slug);
        assert_eq!(x.description, y.description);
        assert_eq!(x.solves, y.solves);
        assert_eq!(x.value, y.value);
    }
}

fn asset_file(name: &str, bytes: Vec<u8>) -> AssetFile {
    AssetFile { name: String::from(name), bytes }
}

#[test]
fn reconcile_drops_missing_challenges_and_sweeps_their_assets() {
    let defs = vec![
        challenge_def("a", "flag{a}", vec![asset_file("shared.bin", vec![7u8])]),
        challenge_def(
            "b",
            "flag{b}",
            vec![asset_file("shared.bin", vec![7u8]), asset_file("b.bin", vec![8u8])],
        ),
    ];
    let mut store = fresh_store();
    let first = load(&mut store, &snapshot(defs, Vec::new())).expect("first");
    let dirs: Vec<String> = first.stored.iter().map(|a| a.hash.clone()).collect();
    let b_hash = hash_bytes(&vec![8u8]);
    let shared_hash = hash_bytes(&vec![7u8]);
    // Remove b's directory from the repository and reconcile again.
    let second = load(
        &mut store,
        &snapshot(
            vec![challenge_def("a", "flag{a}", vec![asset_file("shared.bin", vec![7u8])])],
            dirs,
        ),
    )
    .expect("second");
    let listing = store.challenge_listing(&String::new(), 0);
    assert!(listing.entries.iter().all(|e| e.slug != "b"));
    assert!(second.removed.contains(&b_hash));
    assert!(!second.removed.contains(&shared_hash));
}

#[test]
fn reconcile_rejects_sixty_fifth_challenge() {
    let mut defs = Vec::new();
    for i in 0..65 {
        defs.push(challenge_def(&format!("chal{}", i), &format!("flag{{{}}}", i), vec![]));
    }
    let mut store = fresh_store();
    let r = load(&mut store, &snapshot(defs, Vec::new()));
    assert!(matches!(r, Err(LoadError::Capacity)));
    // Nothing was committed.
    assert!(store.home_html().is_none());
    let listing_gate = store.scoreboard();
    assert_eq!(listing_gate.len(), 0);
}

#[test]
fn reconcile_accepts_sixty_four_challenges() {
    let mut defs = Vec::new();
    for i in 0..64 {
        defs.push(challenge_def(&format!("chal{}", i), &format!("flag{{{}}}", i), vec![]));
    }
    let mut store = fresh_store();
    assert!(load(&mut store, &snapshot(defs, Vec::new())).is_ok());
    let listing = store.challenge_listing(&String::new(), 0);
    assert_eq!(listing.entries.len(), 64);
}

#[test]
fn reconcile_rejects_duplicate_slugs() {
    let defs = vec![challenge_def("a", "flag{a}", vec![]), challenge_def("a", "flag{b}", vec![])];
    let mut store = fresh_store();
    assert!(matches!(load(&mut store, &snapshot(defs, Vec::new())), Err(LoadError::DuplicateSlug)));
}

#[test]
fn reconcile_rejects_bad_timestamps() {
    let mut store = fresh_store();
    let repo = RepoSnapshot {
        ctf: ctf_def(Some("soon"), None),
        challenges: vec![],
        asset_dirs: vec![],
    };
    assert!(matches!(load(&mut store, &repo), Err(LoadError::BadTimestamp)));
}

#[test]
fn first_solve_earns_full_value() {
    // A challenge with value floor 100 and starting value 500, solved by
    // no team yet: the first correct submission credits 500.
    let mut store = store_with(vec![challenge_def("pwn1", "flag{abc}", vec![])]);
    registered(&mut store, "team1", "cookie1");
    let r = store.submit(
        &String::from("cookie1"),
        &String::from("pwn1"),
        &String::from("flag{abc}"),
        100,
    );
    assert!(matches!(r, SubmitOutcome::Credited));
    let board = store.scoreboard();
    assert_eq!(board.len(), 1);
    assert_eq!(board[0].score, 500);
    let listing = store.challenge_listing(&String::from("cookie1"), 100);
    let e = &listing.entries[0];
    assert_eq!(e.solves, 1);
    // A second solve lowers the worth below the start for later solvers.
    registered(&mut store, "team2", "cookie2");
    let r2 = store.submit(
        &String::from("cookie2"),
        &String::from("pwn1"),
        &String::from("flag{abc}"),
        200,
    );
    assert!(matches!(r2, SubmitOutcome::Credited));
    let listing2 = store.challenge_listing(&String::from("cookie1"), 200);
    assert_eq!(listing2.entries[0].value, 475);
    let board2 = store.scoreboard();
    assert_eq!(board2[0].score, 475);
    assert_eq!(board2[1].score, 475);
}

#[test]
fn same_pair_credits_exactly_once() {
    let mut store = store_with(vec![challenge_def("pwn1", "flag{abc}", vec![])]);
    registered(&mut store, "team1", "cookie1");
    let first = store.submit(
        &String::from("cookie1"),
        &String::from("pwn1"),
        &String::from("flag{abc}"),
        100,
    );
    let second = store.submit(
        &String::from("cookie1"),
        &String::from("pwn1"),
        &String::from("flag{abc}"),
        101,
    );
    assert!(matches!(first, SubmitOutcome::Credited));
    assert!(matches!(second, SubmitOutcome::Rejected));
    let listing = store.challenge_listing(&String::from("cookie1"), 101);
    assert_eq!(listing.entries[0].solves, 1);
}

#[test]
fn wrong_flag_and_unknown_slug_reject_alike() {
    let mut store = store_with(vec![challenge_def("pwn1", "flag{abc}", vec![])]);
    registered(&mut store, "team1", "cookie1");
    let wrong = store.submit(
        &String::from("cookie1"),
        &String::from("pwn1"),
        &String::from("flag{nope}"),
        100,
    );
    let unknown = store.submit(
        &String::from("cookie1"),
        &String::from("nosuch"),
        &String::from("flag{abc}"),
        100,
    );
    assert!(matches!(wrong, SubmitOutcome::Rejected));
    assert!(matches!(unknown, SubmitOutcome::Rejected));
    let listing = store.challenge_listing(&String::from("cookie1"), 100);
    assert_eq!(listing.entries[0].solves, 0);
    assert!(!listing.entries[0].solved);
}

#[test]
fn submission_before_start_is_rejected() {
    let mut store = fresh_store();
    let repo = RepoSnapshot {
        ctf: ctf_def(Some("2001-09-09T01:46:40+00:00"), None),
        challenges: vec![challenge_def("pwn1", "flag{abc}", vec![])],
        asset_dirs: vec![],
    };
    load(&mut store, &repo).expect("load");
    registered(&mut store, "team1", "cookie1");
    // One second before the start instant.
    let r = store.submit(
        &String::from("cookie1"),
        &String::from("pwn1"),
        &String::from("flag{abc}"),
        999_999_999,
    );
    assert!(matches!(r, SubmitOutcome::Rejected));
    let board = store.scoreboard();
    assert_eq!(board[0].solves, 0);
    assert_eq!(board[0].score, 0);
    let listing = store.challenge_listing(&String::from("cookie1"), 1_000_000_001);
    assert_eq!(listing.entries[0].solves, 0);
    // At the start instant submission is allowed.
    let r2 = store.submit(
        &String::from("cookie1"),
        &String::from("pwn1"),
        &String::from("flag{abc}"),
        1_000_000_000,
    );
    assert!(matches!(r2, SubmitOutcome::Credited));
}

#[test]
fn submission_after_stop_is_rejected() {
    let mut store = fresh_store();
    let repo = RepoSnapshot {
        ctf: ctf_def(None, Some("1970-01-01T00:00:10+00:00")),
        challenges: vec![challenge_def("pwn1", "flag{abc}", vec![])],
        asset_dirs: vec![],
    };
    load(&mut store, &repo).expect("load");
    registered(&mut store, "team1", "cookie1");
    let r = store.submit(
        &String::from("cookie1"),
        &String::from("pwn1"),
        &String::from("flag{abc}"),
        11,
    );
    assert!(matches!(r, SubmitOutcome::Rejected));
}

#[test]
fn submission_without_session_is_unauthenticated() {
    let mut store = store_with(vec![challenge_def("pwn1", "flag{abc}", vec![])]);
    let r = store.submit(
        &String::from("nocookie"),
        &String::from("pwn1"),
        &String::from("flag{abc}"),
        100,
    );
    assert!(matches!(r, SubmitOutcome::Unauthenticated));
}

#[test]
fn scoreboard_orders_by_score_then_earliest_submit() {
    let mut store = store_with(vec![
        challenge_def("a", "flag{a}", vec![]),
        challenge_def("b", "flag{b}", vec![]),
    ]);
    registered(&mut store, "alpha", "c1");
    registered(&mut store, "beta", "c2");
    registered(&mut store, "gamma", "c3");
    // alpha solves a at t=100; beta solves a at t=50: same score, beta first.
    store.submit(&String::from("c1"), &String::from("a"), &String::from("flag{a}"), 100);
    store.submit(&String::from("c2"), &String::from("a"), &String::from("flag{a}"), 50);
    let board = store.scoreboard();
    assert_eq!(board[0].name, "beta");
    assert_eq!(board[0].place, 1);
    assert_eq!(board[1].name, "alpha");
    assert_eq!(board[1].place, 2);
    assert_eq!(board[2].name, "gamma");
    assert_eq!(board[2].place, 3);
    assert_eq!(board[2].score, 0);
}

#[test]
fn listing_orders_by_value_then_slug() {
    let mut store = store_with(vec![
        challenge_def("zeta", "flag{z}", vec![]),
        challenge_def("alpha", "flag{a}", vec![]),
        challenge_def("mid", "flag{m}", vec![]),
    ]);
    registered(&mut store, "team1", "c1");
    // Two solves of zeta make it cheaper than the others.
    store.submit(&String::from("c1"), &String::from("zeta"), &String::from("flag{z}"), 100);
    registered(&mut store, "team2", "c2");
    store.submit(&String::from("c2"), &String::from("zeta"), &String::from("flag{z}"), 101);
    let listing = store.challenge_listing(&String::new(), 200);
    let slugs: Vec<&str> = listing.entries.iter().map(|e| e.slug.as_str()).collect();
    assert_eq!(slugs, vec!["zeta", "alpha", "mid"]);
    assert!(!listing.authenticated);
}

#[test]
fn scoreboard_hidden_before_start() {
    let mut store = fresh_store();
    let repo = RepoSnapshot {
        ctf: ctf_def(Some("2001-09-09T01:46:40+00:00"), None),
        challenges: vec![challenge_def("pwn1", "flag{abc}", vec![])],
        asset_dirs: vec![],
    };
    load(&mut store, &repo).expect("load");
    assert!(!store.started(0));
    assert!(!store.started(999_999_999));
    assert!(store.started(1_000_000_000));
    assert!(store.started(2_000_000_000));
    // Without a start bound the board is always visible.
    let open_store = store_with(vec![]);
    assert!(open_store.started(i64::MIN));
}

#[test]
fn capacity_counts_existing_challenges() {
    // A store already holding sixty rows refuses a pass that would need
    // five fresh ids, but accepts one that needs four.
    let mut old_defs = Vec::new();
    for i in 0..60 {
        old_defs.push(challenge_def(&format!("old{}", i), &format!("flag{{{}}}", i), vec![]));
    }
    let mut store = store_with(clone_defs(&old_defs));
    let mut grown = clone_defs(&old_defs);
    for i in 0..5 {
        grown.push(challenge_def(&format!("new{}", i), &format!("flag{{n{}}}", i), vec![]));
    }
    let r = load(&mut store, &snapshot(grown, Vec::new()));
    assert!(matches!(r, Err(LoadError::Capacity)));
    // Nothing was committed: the store still lists sixty challenges.
    assert_eq!(store.challenge_listing(&String::new(), 0).entries.len(), 60);
    let mut fits = clone_defs(&old_defs);
    for i in 0..4 {
        fits.push(challenge_def(&format!("new{}", i), &format!("flag{{n{}}}", i), vec![]));
    }
    assert!(load(&mut store, &snapshot(fits, Vec::new())).is_ok());
    assert_eq!(store.challenge_listing(&String::new(), 0).entries.len(), 64);
}

fn clone_defs(defs: &[ChallengeDef]) -> Vec<ChallengeDef> {
    defs.iter()
        .map(|d| ChallengeDef {
            slug: d.slug.clone(),
            title: d.title.clone(),
            author: d.author.clone(),
            description: d.description.clone(),
            tags: d.tags.clone(),
            files: Vec::new(),
            flag: d.flag.clone(),
            enabled: d.enabled,
        })
        .collect()
}

#[test]
fn listing_hidden_before_start() {
    let mut store = fresh_store();
    let repo = RepoSnapshot {
        ctf: ctf_def(Some("2001-09-09T01:46:40+00:00"), None),
        challenges: vec![challenge_def("pwn1", "flag{abc}", vec![])],
        asset_dirs: vec![],
    };
    load(&mut store, &repo).expect("load");
    let early = store.challenge_listing(&String::new(), 0);
    assert!(!early.available);
    assert_eq!(early.entries.len(), 0);
    let late = store.challenge_listing(&String::new(), 1_000_000_001);
    assert!(late.available);
}

#[test]
fn register_validates_fields() {
    let mut store = fresh_store();
    let empty = String::new();
    let name = String::from("team");
    let email = String::from("t@example.org");
    let hash = String::from("h");
    assert!(matches!(
        store.register(&empty, &email, &hash, 0),
        RegisterOutcome::MissingName
    ));
    assert!(matches!(
        store.register(&name, &empty, &hash, 0),
        RegisterOutcome::MissingEmail
    ));
    assert!(matches!(
        store.register(&name, &email, &empty, 0),
        RegisterOutcome::MissingPassword
    ));
    let long = String::from_utf8(vec![b'x'; 65]).unwrap();
    assert!(matches!(
        store.register(&long, &email, &hash, 0),
        RegisterOutcome::InvalidName
    ));
    let control = String::from("bad\u{7}name");
    assert!(matches!(
        store.register(&control, &email, &hash, 0),
        RegisterOutcome::InvalidName
    ));
    assert!(matches!(store.register(&name, &email, &hash, 0), RegisterOutcome::Created));
    assert!(matches!(
        store.register(&name, &String::from("other@example.org"), &hash, 0),
        RegisterOutcome::Conflict
    ));
    assert!(matches!(
        store.register(&String::from("other"), &email, &hash, 0),
        RegisterOutcome::Conflict
    ));
}

#[test]
fn login_and_logout_round_trip() {
    let mut store = fresh_store();
    store.register(
        &String::from("team"),
        &String::from("t@example.org"),
        &String::from("h"),
        0,
    );
    assert!(matches!(
        store.login(&String::new(), &String::from("h"), &String::from("c")),
        LoginOutcome::MissingName
    ));
    assert!(matches!(
        store.login(&String::from("team"), &String::new(), &String::from("c")),
        LoginOutcome::MissingPassword
    ));
    assert!(matches!(
        store.login(&String::from("team"), &String::from("wrong"), &String::from("c")),
        LoginOutcome::BadCredentials
    ));
    assert!(matches!(
        store.login(&String::from("team"), &String::from("h"), &String::from("c")),
        LoginOutcome::LoggedIn
    ));
    assert!(store.session_active(&String::from("c")));
    assert!(matches!(
        store.login(&String::from("team"), &String::from("h"), &String::from("c")),
        LoginOutcome::TokenTaken
    ));
    store.logout(&String::from("c"));
    assert!(!store.session_active(&String::from("c")));
    // Logging out an unknown cookie is a no-op.
    store.logout(&String::from("c"));
}

#[test]
fn profile_updates_email_and_optionally_password() {
    let mut store = fresh_store();
    store.register(
        &String::from("team"),
        &String::from("t@example.org"),
        &String::from("h"),
        0,
    );
    store.register(
        &String::from("two"),
        &String::from("two@example.org"),
        &String::from("h2"),
        0,
    );
    store.login(&String::from("team"), &String::from("h"), &String::from("c"));
    let empty = String::new();
    assert!(matches!(
        store.update_profile(&String::from("c"), &empty, &empty, &String::from("h")),
        ProfileOutcome::MissingEmail
    ));
    assert!(matches!(
        store.update_profile(&String::from("c"), &String::from("n@example.org"), &empty, &empty),
        ProfileOutcome::MissingCurrentPassword
    ));
    assert!(matches!(
        store.update_profile(
            &String::from("nocookie"),
            &String::from("n@example.org"),
            &empty,
            &String::from("h")
        ),
        ProfileOutcome::Unauthorized
    ));
    assert!(matches!(
        store.update_profile(
            &String::from("c"),
            &String::from("n@example.org"),
            &empty,
            &String::from("wrong")
        ),
        ProfileOutcome::Unauthorized
    ));
    assert!(matches!(
        store.update_profile(
            &String::from("c"),
            &String::from("two@example.org"),
            &empty,
            &String::from("h")
        ),
        ProfileOutcome::Conflict
    ));
    assert!(matches!(
        store.update_profile(
            &String::from("c"),
            &String::from("n@example.org"),
            &String::from("h3"),
            &String::from("h")
        ),
        ProfileOutcome::Updated
    ));
    let profile = store.team_profile(&String::from("c")).unwrap();
    assert_eq!(profile.0, "team");
    assert_eq!(profile.1, "n@example.org");
    // The password changed: the old hash no longer logs in.
    assert!(matches!(
        store.login(&String::from("team"), &String::from("h"), &String::from("c2")),
        LoginOutcome::BadCredentials
    ));
    assert!(matches!(
        store.login(&String::from("team"), &String::from("h3"), &String::from("c2")),
        LoginOutcome::LoggedIn
    ));
}

#[test]
fn value_curve_is_non_increasing_with_floor() {
    let p = standard_policy();
    assert_eq!(p.value(0), 500);
    assert_eq!(p.value(1), 500);
    assert_eq!(p.value(2), 475);
    assert_eq!(p.value(17), 100);
    assert_eq!(p.value(1_000_000), 100);
    let mut prev = p.value(0);
    let mut n: u64 = 1;
    while n < 50 {
        let v = p.value(n);
        assert!(v <= prev);
        assert!(v >= 100);
        prev = v;
        n += 1;
    }
}

#[test]
fn home_and_title_come_from_the_definition() {
    let store = store_with(vec![]);
    assert!(store.home_html().unwrap().contains("<h1>welcome</h1>"));
    assert_eq!(store.title().unwrap(), "example ctf");
}
