use bop::pr::{ApiBody, PrAction, PrFlow, PrPhase, GITHUB_REPO};

fn s(x: &str) -> String {
    x.to_string()
}

fn request(a: &PrAction) -> (bool, String, Vec<String>) {
    match a {
        PrAction::Request { post, endpoint, reply, .. } => (*post, endpoint.clone(), reply.clone()),
        _ => panic!("not a request"),
    }
}

fn body(a: &PrAction) -> &ApiBody {
    match a {
        PrAction::Request { body, .. } => body,
        _ => panic!("not a request"),
    }
}

fn failure(a: &PrAction) -> String {
    match a {
        PrAction::Fail(m) => m.clone(),
        _ => panic!("not a failure"),
    }
}

fn ep(rest: &str) -> String {
    format!("/repos/{}{}", GITHUB_REPO, rest)
}

fn start_one(content: &str) -> (PrFlow, PrAction) {
    PrFlow::start(
        s("main"),
        s("bop-edit/20260326-143052"),
        vec![(s("lilypond/psalm1/notes.ly"), s(content))],
        s("Edit Psalm 1"),
        s("Edited in the app"),
    )
}

fn blob_content(content: &str) -> String {
    let (mut f, _) = start_one(content);
    f.advance(Ok(Some(s("base"))));
    let a = f.advance(Ok(Some(s("tree0"))));
    match body(&a) {
        ApiBody::Blob { content } => content.clone(),
        _ => panic!("not a blob"),
    }
}

#[test]
fn nothing_to_commit() {
    let (f, a) = PrFlow::start(s("main"), s("b"), vec![], s("t"), s("b"));
    assert_eq!(failure(&a), "No files to commit");
    assert_eq!(f.phase, PrPhase::Finished);
}

#[test]
fn full_successful_flow() {
    let (mut f, a) = start_one("hello");
    assert_eq!(GITHUB_REPO, "WHCanRC-Media/BookofPraise");
    assert_eq!(request(&a), (false, ep("/git/ref/heads/main"), vec![s("object"), s("sha")]));
    assert!(matches!(body(&a), ApiBody::Empty));

    let a = f.advance(Ok(Some(s("base"))));
    assert_eq!(request(&a), (false, ep("/git/commits/base"), vec![s("tree"), s("sha")]));

    let a = f.advance(Ok(Some(s("tree0"))));
    assert_eq!(request(&a), (true, ep("/git/blobs"), vec![s("sha")]));
    match body(&a) {
        ApiBody::Blob { content } => assert_eq!(content, "aGVsbG8="),
        _ => panic!("not a blob"),
    }

    let a = f.advance(Ok(Some(s("blob1"))));
    assert_eq!(request(&a), (true, ep("/git/trees"), vec![s("sha")]));
    match body(&a) {
        ApiBody::Tree { base_tree, entries } => {
            assert_eq!(base_tree, "tree0");
            assert_eq!(entries, &vec![(s("lilypond/psalm1/notes.ly"), s("blob1"))]);
        },
        _ => panic!("not a tree"),
    }

    let a = f.advance(Ok(Some(s("tree1"))));
    assert_eq!(request(&a), (true, ep("/git/commits"), vec![s("sha")]));
    match body(&a) {
        ApiBody::Commit { message, tree, parent } => {
            assert_eq!(message, "Edit Psalm 1");
            assert_eq!(tree, "tree1");
            assert_eq!(parent, "base");
        },
        _ => panic!("not a commit"),
    }

    let a = f.advance(Ok(Some(s("commit1"))));
    assert_eq!(request(&a), (true, ep("/git/refs"), vec![]));
    match body(&a) {
        ApiBody::Branch { ref_name, sha } => {
            assert_eq!(ref_name, "refs/heads/bop-edit/20260326-143052");
            assert_eq!(sha, "commit1");
        },
        _ => panic!("not a branch"),
    }

    let a = f.advance(Ok(None));
    assert_eq!(request(&a), (true, ep("/pulls"), vec![s("html_url")]));
    match body(&a) {
        ApiBody::Pull { title, body, head, base } => {
            assert_eq!(title, "Edit Psalm 1");
            assert_eq!(body, "Edited in the app");
            assert_eq!(head, "bop-edit/20260326-143052");
            assert_eq!(base, "main");
        },
        _ => panic!("not a pull request"),
    }

    let a = f.advance(Ok(Some(s("https://github.com/x/pull/1"))));
    match a {
        PrAction::Done(url) => assert_eq!(url, "https://github.com/x/pull/1"),
        _ => panic!("not done"),
    }
    assert_eq!(f.phase, PrPhase::Finished);
}

#[test]
fn one_blob_per_file() {
    let (mut f, _) = PrFlow::start(
        s("main"),
        s("b"),
        vec![(s("a.ly"), s("A")), (s("b.ly"), s("B"))],
        s("t"),
        s("x"),
    );
    f.advance(Ok(Some(s("base"))));
    let a = f.advance(Ok(Some(s("tree0"))));
    assert_eq!(request(&a).1, ep("/git/blobs"));
    let a = f.advance(Ok(Some(s("sha-a"))));
    assert_eq!(request(&a).1, ep("/git/blobs"));
    match body(&a) {
        ApiBody::Blob { content } => assert_eq!(content, "Qg=="),
        _ => panic!("not a blob"),
    }
    let a = f.advance(Ok(Some(s("sha-b"))));
    match body(&a) {
        ApiBody::Tree { entries, .. } => {
            assert_eq!(entries, &vec![(s("a.ly"), s("sha-a")), (s("b.ly"), s("sha-b"))])
        },
        _ => panic!("not a tree"),
    }
}

#[test]
fn request_errors_end_the_flow() {
    let (mut f, _) = start_one("x");
    let a = f.advance(Err(s("GET /repos/x: 404")));
    assert_eq!(failure(&a), "GET /repos/x: 404");
    assert_eq!(f.phase, PrPhase::Finished);
}

#[test]
fn missing_answers_end_the_flow() {
    let (mut f, _) = start_one("x");
    assert_eq!(failure(&f.advance(Ok(None))), "Missing base ref SHA");

    let (mut f, _) = start_one("x");
    f.advance(Ok(Some(s("base"))));
    assert_eq!(failure(&f.advance(Ok(None))), "Missing base tree SHA");

    let (mut f, _) = start_one("x");
    f.advance(Ok(Some(s("base"))));
    f.advance(Ok(Some(s("tree0"))));
    assert_eq!(failure(&f.advance(Ok(None))), "Missing blob SHA for lilypond/psalm1/notes.ly");

    let (mut f, _) = start_one("x");
    f.advance(Ok(Some(s("base"))));
    f.advance(Ok(Some(s("tree0"))));
    f.advance(Ok(Some(s("blob"))));
    assert_eq!(failure(&f.advance(Ok(None))), "Missing new tree SHA");
    let (mut f, _) = start_one("x");
    f.advance(Ok(Some(s("base"))));
    f.advance(Ok(Some(s("tree0"))));
    f.advance(Ok(Some(s("blob"))));
    f.advance(Ok(Some(s("tree1"))));
    assert_eq!(failure(&f.advance(Ok(None))), "Missing new commit SHA");
    f = start_one("x").0;
    for r in ["base", "tree0", "blob", "tree1", "commit"] {
        f.advance(Ok(Some(s(r))));
    }
    f.advance(Ok(None));
    assert_eq!(failure(&f.advance(Ok(None))), "Missing PR URL");
}

#[test]
fn blob_contents_are_standard_base64() {
    assert_eq!(blob_content(""), "");
    assert_eq!(blob_content("a"), "YQ==");
    assert_eq!(blob_content("ab"), "YWI=");
    assert_eq!(blob_content("abc"), "YWJj");
    assert_eq!(blob_content("\u{e9}"), "w6k=");
    assert_eq!(blob_content("c'4 d\n"), "Yyc0IGQK");
}
