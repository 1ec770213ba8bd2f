use bary::server::strip_index_suffix;
use bary::{PlannedRoute, Server, TarFrontend};
use rocket::http::Method;
use rocket::route::{BoxFuture, Outcome};
use rocket::{Data, Request, Route};

fn archive_of(files: &[(&str, &[u8])]) -> Vec<u8> {
    let mut builder = tar::Builder::new(Vec::new());
    for (path, data) in files {
        let mut header = tar::Header::new_gnu();
        header.set_size(data.len() as u64);
        header.set_entry_type(tar::EntryType::Regular);
        header.set_mode(0o644);
        builder.append_data(&mut header, path, *data).unwrap();
    }
    builder.into_inner().unwrap()
}

fn hello<'r>(req: &'r Request<'_>, _data: Data<'r>) -> BoxFuture<'r> {
    let outcome = Outcome::from(req, "hello");
    Box::pin(std::future::ready(outcome))
}

fn route_at<'a>(routes: &'a [PlannedRoute], path: &str) -> Vec<&'a PlannedRoute> {
    routes.iter().filter(|r| r.path == path).collect()
}

fn server_of(files: &[(&str, &[u8])], port: u16) -> Server {
    Server::new(port, TarFrontend::new(archive_of(files)), None).unwrap()
}

#[test]
fn strips_index_suffix_once() {
    assert_eq!(strip_index_suffix(&"/a/index.html".to_string()), "/a/");
    assert_eq!(strip_index_suffix(&"/index.html".to_string()), "/");
    assert_eq!(strip_index_suffix(&"/index.htmlindex.html".to_string()), "/index.html");
    assert_eq!(strip_index_suffix(&"index.html".to_string()), "");
}

#[test]
fn doubled_index_suffix_is_stripped_once() {
    let server = server_of(&[("index.htmlindex.html", b"twice")], 9000);
    let routes = server.frontend_routes();
    assert_eq!(routes.len(), 2);
    assert_eq!(routes[0].path, "/index.html");
    assert_eq!(routes[1].path, "/index.htmlindex.html");
    assert_eq!(routes[0].handler.0 .0, b"twice".to_vec());
    assert_eq!(routes[0].handler.0 .1, "/index.htmlindex.html");
}

#[test]
fn other_files_get_one_route() {
    let server = server_of(&[("app.js", b"x"), ("about.html", b"y")], 9001);
    let routes = server.frontend_routes();
    assert_eq!(routes.len(), 2);
    assert_eq!(route_at(&routes, "/app.js").len(), 1);
    assert_eq!(route_at(&routes, "/about.html").len(), 1);
}

#[test]
fn new_keeps_port_secret_and_files() {
    let server = Server::new(8080, TarFrontend::new(archive_of(&[("a.txt", b"A")])), Some("key".to_string())).unwrap();
    assert_eq!(server.port(), 8080);
    assert_eq!(server.secret_key(), &Some("key".to_string()));
    assert_eq!(server.frontend().num_files(), 1);
    assert_eq!(server.frontend().get(&"/a.txt".to_string()), Some(&b"A".to_vec()));
    assert!(server.into_route_groups().is_empty());
}

#[test]
fn new_fails_on_unreadable_archive() {
    let data = archive_of(&[("big.bin", &[1u8; 3000][..])]);
    assert!(Server::new(80, TarFrontend::new(data[..700].to_vec()), None).is_err());
}

#[test]
fn index_html_is_served_twice() {
    let server = server_of(&[("docs/index.html", b"<p>docs</p>"), ("style.css", b"p{}")], 8000);
    let routes = server.frontend_routes();
    assert_eq!(routes.len(), 3);
    let exact = route_at(&routes, "/docs/index.html");
    let dir = route_at(&routes, "/docs/");
    assert_eq!(exact.len(), 1);
    assert_eq!(dir.len(), 1);
    assert_eq!(exact[0].handler.0 .0, b"<p>docs</p>".to_vec());
    assert_eq!(dir[0].handler.0 .0, b"<p>docs</p>".to_vec());
    assert_eq!(dir[0].handler.0 .1, "/docs/index.html");
    assert_eq!(route_at(&routes, "/style.css").len(), 1);
}

#[test]
fn frontend_example_is_served() {
    let index = b"<h1>hi</h1>";
    let app = b"console.log('app');\n";
    assert_eq!(index.len(), 11);
    assert_eq!(app.len(), 20);
    let server = server_of(&[("index.html", index), ("app.js", app)], 8080);
    assert_eq!(server.port(), 8080);
    let routes = server.frontend_routes();
    assert_eq!(routes.len(), 3);
    for path in ["/index.html", "/"] {
        let found = route_at(&routes, path);
        assert_eq!(found.len(), 1);
        let response = found[0].handler.handle().respond_to();
        assert_eq!(response.body, index.to_vec());
        assert_eq!(response.length, 11);
        assert!(response.content_type.unwrap().starts_with("text/html"));
    }
    let found = route_at(&routes, "/app.js");
    assert_eq!(found.len(), 1);
    let response = found[0].handler.handle().respond_to();
    assert_eq!(response.body, app.to_vec());
    assert_eq!(response.length, 20);
    assert!(response.content_type.unwrap().starts_with("text/javascript"));
}

#[test]
fn mount_replaces_same_base() {
    let mut server = server_of(&[], 1);
    server.mount("/api", vec![Route::new(Method::Get, "/a", hello), Route::new(Method::Get, "/b", hello)]);
    server.mount("/admin", Vec::new());
    server.mount("/api", vec![Route::new(Method::Get, "/c", hello)]);
    let groups = server.into_route_groups();
    assert_eq!(groups.len(), 2);
    assert_eq!(groups[0].base, "/api");
    assert_eq!(groups[0].routes.len(), 1);
    assert_eq!(groups[1].base, "/admin");
    assert!(groups[1].routes.is_empty());
}
