use rdf_glance::ui::recent_projects::remember_project;

#[test]
fn a_project_is_remembered_once() {
    let mut recent: Vec<String> = Vec::new();
    remember_project(&mut recent, "a.rdfglance".to_string());
    remember_project(&mut recent, "b.rdfglance".to_string());
    remember_project(&mut recent, "a.rdfglance".to_string());
    assert_eq!(recent, vec!["a.rdfglance".to_string(), "b.rdfglance".to_string()]);
}
