use rumd::cache::{ChunkCache, IoError};
use rumd::catalog::CatalogEntry;
use rumd::scan::{scan, FoundFile, Visit};
use rumd::filters::{rumd, umd_info, umd_list, umd_read, Method, Request};
use rumd::rumd::{Header, Response, Server};

fn strings(items: &[&str]) -> Vec<String> {
    items.iter().map(|s| s.to_string()).collect()
}

fn file(name: &str, size: u64) -> Visit {
    Visit::File(FoundFile { components: strings(&[name]), path: format!("/r/{}", name), size })
}

fn server(visits: Vec<Visit>) -> Server {
    let catalog = scan(&visits, &strings(&["iso"])).unwrap().catalog;
    Server::new(catalog, ChunkCache::new(64, 4096).unwrap())
}

fn request(method: &str, path: &str, range: Option<&str>) -> Request {
    let method = match method {
        "GET" => Method::Get,
        "HEAD" => Method::Head,
        _ => Method::Other,
    };
    Request { method, path: path.to_string(), range: range.map(|s| s.to_string()) }
}

fn header(name: &str, value: &str) -> Header {
    Header { name: name.to_string(), value: value.to_string() }
}

fn image() -> Vec<u8> {
    (0..1000usize).map(|i| (i * 31 % 256) as u8).collect()
}

fn load(data: &[u8], offset: u64, len: u64) -> Result<Vec<u8>, IoError> {
    let from = std::cmp::min(data.len(), offset as usize);
    let upto = std::cmp::min(data.len(), from + len as usize);
    Ok(data[from..upto].to_vec())
}

#[test]
fn test_list() {
    let mut api = server(vec![
        file("Monster Hunter Freedom Unite (USA) (En,Fr,De,Es,It).iso", 3),
        file("Crisis Core - Final Fantasy VII (USA).iso", 1),
        file("Metal_Gear_Solid_Peace_Walker_USA_PSP-pSyPSP.iso", 2),
    ]);
    let loader = |_e: &CatalogEntry, _o: u64, _l: u64| -> Result<Vec<u8>, IoError> { Err(IoError::Stale) };
    let resp = rumd(&mut api, &request("GET", "/", None), &loader);

    assert_eq!(resp.status, 200);
    assert_eq!(
        resp.body,
        r#"/Crisis%20Core%20-%20Final%20Fantasy%20VII%20(USA).iso
/Metal_Gear_Solid_Peace_Walker_USA_PSP-pSyPSP.iso
/Monster%20Hunter%20Freedom%20Unite%20(USA)%20(En,Fr,De,Es,It).iso"#
            .as_bytes()
    );
}

#[test]
fn end_to_end() {
    let data = image();
    let mut api = server(vec![file("game.iso", 1000)]);
    let loader = |e: &CatalogEntry, o: u64, l: u64| -> Result<Vec<u8>, IoError> {
        assert_eq!(e.path, "/r/game.iso");
        load(&data, o, l)
    };

    let head = rumd(&mut api, &request("HEAD", "/game.iso", None), &loader);
    assert_eq!(head.status, 200);
    assert!(head.headers.contains(&header("Content-Length", "1000")));
    assert!(head.headers.contains(&header("Accept-Ranges", "bytes")));
    assert!(head.headers.contains(&header("Content-Type", "application/octet-stream")));
    assert!(head.body.is_empty());

    let part = rumd(&mut api, &request("GET", "/game.iso", Some("bytes=0-99")), &loader);
    assert_eq!(part.status, 206);
    assert!(part.headers.contains(&header("Content-Range", "bytes 0-99/1000")));
    assert!(part.headers.contains(&header("Accept-Ranges", "bytes")));
    assert!(part.headers.contains(&header("Content-Type", "application/octet-stream")));
    assert_eq!(part.body.len(), 100);
    assert_eq!(part.body, data[0..100].to_vec());

    let beyond = rumd(&mut api, &request("GET", "/game.iso", Some("bytes=2000-3000")), &loader);
    assert_eq!(beyond.status, 416);
    assert_eq!(beyond.headers, vec![header("Content-Range", "bytes */1000")]);

    let missing = rumd(&mut api, &request("GET", "/missing.iso", Some("bytes=0-99")), &loader);
    assert_eq!(missing.status, 404);
    assert_eq!(rumd(&mut api, &request("HEAD", "/missing.iso", None), &loader).status, 404);
}

#[test]
fn a_read_without_a_range_is_a_bad_request() {
    let data = image();
    let mut api = server(vec![file("game.iso", 1000)]);
    let loader = |_e: &CatalogEntry, o: u64, l: u64| -> Result<Vec<u8>, IoError> { load(&data, o, l) };
    assert_eq!(rumd(&mut api, &request("GET", "/game.iso", None), &loader).status, 400);
    assert_eq!(rumd(&mut api, &request("GET", "/game.iso", Some("bytes=x-y")), &loader).status, 400);
    assert_eq!(rumd(&mut api, &request("GET", "/game.iso", Some("bytes=0-1,3-4")), &loader).status, 400);
}

#[test]
fn other_methods_and_paths_are_turned_away() {
    let data = image();
    let mut api = server(vec![file("game.iso", 1000)]);
    let loader = |_e: &CatalogEntry, o: u64, l: u64| -> Result<Vec<u8>, IoError> { load(&data, o, l) };
    assert_eq!(rumd(&mut api, &request("POST", "/game.iso", None), &loader).status, 405);
    assert_eq!(rumd(&mut api, &request("POST", "/", None), &loader).status, 405);
    assert_eq!(rumd(&mut api, &request("HEAD", "/", None), &loader).status, 405);
    assert_eq!(rumd(&mut api, &request("GET", "", None), &loader).status, 404);
    assert_eq!(rumd(&mut api, &request("GET", "game.iso", Some("bytes=0-1")), &loader).status, 404);
    assert_eq!(rumd(&mut api, &request("DELETE", "nowhere", None), &loader).status, 404);
    assert_eq!(rumd(&mut api, &request("GET", "/é", Some("bytes=0-1")), &loader).status, 404);
}

#[test]
fn names_in_directories_are_served_by_their_whole_path() {
    let data = image();
    let visits = vec![Visit::File(FoundFile {
        components: strings(&["psp", "my game.iso"]),
        path: "/r/psp/my game.iso".to_string(),
        size: 1000,
    })];
    let mut api = server(visits);
    let loader = |_e: &CatalogEntry, o: u64, l: u64| -> Result<Vec<u8>, IoError> { load(&data, o, l) };
    assert_eq!(rumd(&mut api, &request("GET", "/", None), &loader).body, b"/psp/my%20game.iso".to_vec());
    let part = rumd(&mut api, &request("GET", "/psp/my%20game.iso", Some("bytes=10-19")), &loader);
    assert_eq!(part.status, 206);
    assert_eq!(part.body, data[10..20].to_vec());
    assert_eq!(rumd(&mut api, &request("HEAD", "/psp/my game.iso", None), &loader).status, 404);
}

#[test]
fn each_route_answers_only_its_own_requests() {
    let data = image();
    let mut api = server(vec![file("game.iso", 1000)]);
    let loader = |_e: &CatalogEntry, o: u64, l: u64| -> Result<Vec<u8>, IoError> { load(&data, o, l) };
    let list = request("GET", "/", None);
    let info = request("HEAD", "/game.iso", None);
    let read = request("GET", "/game.iso", Some("bytes=0-0"));
    let post = request("POST", "/game.iso", None);

    assert_eq!(umd_list(&api.catalog, &list).map(|r| r.status), Some(200));
    assert!(umd_list(&api.catalog, &info).is_none());
    assert!(umd_list(&api.catalog, &read).is_none());
    assert!(umd_list(&api.catalog, &post).is_none());

    assert_eq!(umd_info(&api.catalog, &info).map(|r| r.status), Some(200));
    assert!(umd_info(&api.catalog, &list).is_none());
    assert!(umd_info(&api.catalog, &read).is_none());
    assert!(umd_info(&api.catalog, &request("HEAD", "/", None)).is_none());

    assert_eq!(
        umd_read(&api.catalog, &mut api.cache, &read, &loader),
        Some(Response {
            status: 206,
            headers: vec![
                header("Accept-Ranges", "bytes"),
                header("Content-Type", "application/octet-stream"),
                header("Content-Range", "bytes 0-0/1000"),
            ],
            body: vec![data[0]],
        })
    );
    assert!(umd_read(&api.catalog, &mut api.cache, &list, &loader).is_none());
    assert!(umd_read(&api.catalog, &mut api.cache, &info, &loader).is_none());
    assert!(umd_read(&api.catalog, &mut api.cache, &post, &loader).is_none());
}
