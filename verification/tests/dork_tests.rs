use shodan_pipeline::shodan::build_dork_from_keywords;

#[test]
fn tld_only() {
    let q = build_dork_from_keywords(".cl");
    assert!(q.contains("ssl:\".cl\""));
    assert!(q.contains("http.title:\".cl\""));
    assert!(!q.contains("hostname:\"cl\""));
}

#[test]
fn chile_and_tld_and_muni() {
    let q = build_dork_from_keywords("chile,.cl,muni");
    assert!(q.contains("country:CL"));
    assert!(q.contains("ssl:\".cl\""));
    assert!(q.contains("Municipalidad"));
    assert!(q.matches(" AND ").count() >= 2);
}

#[test]
fn chile_and_cl_dedup() {
    let q = build_dork_from_keywords("chile,cl");
    assert!(q.matches("country:CL").count() == 1, "Dork duplicado: {q}");
}

#[test]
fn iso_code_uppercased() {
    let q = build_dork_from_keywords("ar");
    assert_eq!(q, "(country:AR)");
}

#[test]
fn free_term_and_domain() {
    let q = build_dork_from_keywords("router,example.com");
    assert!(q.contains("product:\"router\""));
    assert!(q.contains("hostname:\"example.com\""));
    assert!(q.contains(" AND "));
}

#[test]
fn empty_keywords_fall_back() {
    let q = build_dork_from_keywords("");
    assert_eq!(q, "country:CL");
}

#[test]
fn quotes_stripped_and_lowercased() {
    let q = build_dork_from_keywords("\"CHILE\"");
    assert_eq!(q, "(country:CL)");
}
