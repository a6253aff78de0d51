use handlebars::{
    to_json, Context, Handlebars, Helper, HelperDef, HelperResult, JsonValue, Output, RenderContext, RenderError,
};
use rend3::shader::{
    embedded_name, registered_shader_string, IncludeArgument, Inclusion, RendererProfile, ShaderConfig, ShaderIncluder,
    ShaderPreProcessor,
};
use std::collections::BTreeMap;
use std::sync::Mutex;

struct IncludeHelper<'a> {
    includer: Mutex<ShaderIncluder<'a>>,
}

impl<'a> HelperDef for IncludeHelper<'a> {
    fn call<'reg: 'rc, 'rc>(
        &self,
        h: &Helper<'reg, 'rc>,
        r: &'reg Handlebars<'reg>,
        _ctx: &'rc Context,
        _rc: &mut RenderContext<'reg, 'rc>,
        out: &mut dyn Output,
    ) -> HelperResult {
        let argument = match h.param(0).map(|p| p.value()) {
            None => IncludeArgument::Missing,
            Some(JsonValue::String(name)) => IncludeArgument::Name(name),
            Some(_) => IncludeArgument::NotAString,
        };
        let inclusion = self.includer.lock().unwrap().call(argument);
        match inclusion {
            Inclusion::Skip => Ok(()),
            Inclusion::Fail(message) => Err(RenderError::new(message)),
            Inclusion::Render(contents) => {
                out.write(&r.render_template(contents, &())?)?;
                Ok(())
            }
        }
    }
}

fn render_shader(pp: &ShaderPreProcessor, base: &str, config: &ShaderConfig) -> Result<String, RenderError> {
    let mut data = BTreeMap::new();
    data.insert("profile", config.profile.map(|p| format!("{p:?}")));
    let mut registry = Handlebars::new();
    registry.set_strict_mode(true);
    registry.register_escape_fn(handlebars::no_escape);
    registry.register_helper("include", Box::new(IncludeHelper { includer: Mutex::new(ShaderIncluder::new(base, pp)) }));
    let contents = pp.base_shader(base).map_err(RenderError::new)?;
    registry.render_template(contents, &to_json(data))
}

#[test]
fn simple_include() {
    let mut pp = ShaderPreProcessor::new();
    pp.add_shader("simple", "{{include \"other\"}} simple");
    pp.add_shader("other", "other");
    let config = ShaderConfig { profile: None };
    let output = render_shader(&pp, "simple", &config).unwrap();

    assert_eq!(output, "other simple");
}

#[test]
fn recursive_include() {
    let mut pp = ShaderPreProcessor::new();
    pp.add_shader("simple", "{{include \"other\"}} simple");
    pp.add_shader("other", "{{include \"simple\"}} other");
    let config = ShaderConfig { profile: None };
    let output = render_shader(&pp, "simple", &config).unwrap();

    assert_eq!(output, " other simple");
}

#[test]
fn error_include() {
    let mut pp = ShaderPreProcessor::new();
    pp.add_shader("simple", "{{include \"other\"}} simple");
    let config = ShaderConfig { profile: None };
    let output = render_shader(&pp, "simple", &config);

    assert!(output.is_err(), "Expected error, got {output:?}");
}

#[test]
fn no_arg_include() {
    let mut pp = ShaderPreProcessor::new();
    pp.add_shader("simple", "{{include}} simple");
    let config = ShaderConfig { profile: None };
    let output = render_shader(&pp, "simple", &config);

    assert!(output.is_err(), "Expected error, got {output:?}");
}

#[test]
fn a_shader_is_included_once_however_often_it_is_named() {
    let mut pp = ShaderPreProcessor::new();
    pp.add_shader("simple", "{{include \"other\"}}+{{include \"other\"}}+{{include \"third\"}}");
    pp.add_shader("other", "<{{include \"third\"}}>");
    pp.add_shader("third", "3");
    let output = render_shader(&pp, "simple", &ShaderConfig::default()).unwrap();
    assert_eq!(output, "<3>++");
}

#[test]
fn the_profile_is_rendered_from_the_config() {
    let mut pp = ShaderPreProcessor::new();
    pp.add_shader("base", "profile={{profile}}");
    let config = ShaderConfig { profile: Some(RendererProfile::GpuDriven) };
    assert_eq!(render_shader(&pp, "base", &config).unwrap(), "profile=GpuDriven");
}

#[test]
fn a_missing_base_shader_fails_with_the_listing() {
    let mut pp = ShaderPreProcessor::new();
    pp.add_shader("b", "");
    pp.add_shader("a", "");
    let error = render_shader(&pp, "base", &ShaderConfig::default()).unwrap_err();
    assert_eq!(error.desc, "Base shader base is not registered. All registered shaders: a, b");
}

#[test]
fn the_default_config_has_no_profile() {
    assert_eq!(ShaderConfig::default().profile, None);
}

#[test]
fn a_new_preprocessor_holds_no_shader() {
    let pp = ShaderPreProcessor::new();
    assert!(pp.files().is_empty());
    assert_eq!(pp.get("rend3/anything"), None);
    assert_eq!(registered_shader_string(&pp), "");
}

#[test]
fn added_shaders_are_found_by_name() {
    let mut pp = ShaderPreProcessor::new();
    pp.add_shader("simple", "one");
    pp.add_shader("other", "two");
    assert_eq!(pp.get("simple"), Some(&"one".to_string()));
    assert_eq!(pp.get("other"), Some(&"two".to_string()));
    assert_eq!(pp.get("third"), None);
    assert_eq!(pp.get(""), None);
    let mut names: Vec<&String> = pp.files();
    names.sort();
    assert_eq!(names, vec!["other", "simple"]);
}

#[test]
fn a_shader_added_again_replaces_the_first() {
    let mut pp = ShaderPreProcessor::new();
    pp.add_shader("simple", "one");
    pp.add_shader("other", "two");
    pp.add_shader("simple", "three");
    assert_eq!(pp.get("simple"), Some(&"three".to_string()));
    assert_eq!(pp.get("other"), Some(&"two".to_string()));
    assert_eq!(pp.files().len(), 2);
}

#[test]
fn the_listing_is_sorted_by_bytes_and_joined_by_comma_and_space() {
    let mut pp = ShaderPreProcessor::new();
    for name in ["rend3/b", "b", "a", "Z", "ab", "", "é", "a/b"] {
        pp.add_shader(name, "");
    }
    assert_eq!(registered_shader_string(&pp), ", Z, a, a/b, ab, b, rend3/b, é");
    let mut expected: Vec<String> = pp.files().into_iter().cloned().collect();
    expected.sort_unstable();
    assert_eq!(registered_shader_string(&pp), expected.join(", "));
    let sorted: Vec<String> = pp.sorted_names().into_iter().cloned().collect();
    assert_eq!(sorted, expected);
}

#[test]
fn the_listing_of_one_shader_is_its_name() {
    let mut pp = ShaderPreProcessor::new();
    pp.add_shader("only", "x");
    assert_eq!(registered_shader_string(&pp), "only");
}

#[test]
fn base_shader_finds_the_contents() {
    let mut pp = ShaderPreProcessor::new();
    pp.add_shader("simple", "text");
    assert_eq!(pp.base_shader("simple"), Ok(&"text".to_string()));
    assert_eq!(
        pp.base_shader("other"),
        Err("Base shader other is not registered. All registered shaders: simple".to_string())
    );
}

fn failure(inclusion: Inclusion) -> String {
    match inclusion {
        Inclusion::Fail(message) => message,
        Inclusion::Skip => panic!("skipped"),
        Inclusion::Render(contents) => panic!("rendered {contents}"),
    }
}

#[test]
fn an_include_without_a_name_fails() {
    let pp = ShaderPreProcessor::new();
    let mut includer = ShaderIncluder::new("base", &pp);
    assert_eq!(
        failure(includer.call(IncludeArgument::Missing)),
        "include helper must have a single argument for the include path"
    );
    assert_eq!(
        failure(includer.call(IncludeArgument::NotAString)),
        "include helper's first argument must be a string"
    );
}

#[test]
fn the_base_shader_is_never_included() {
    let mut pp = ShaderPreProcessor::new();
    pp.add_shader("base", "text");
    let mut includer = ShaderIncluder::new("base", &pp);
    assert!(matches!(includer.call(IncludeArgument::Name("base")), Inclusion::Skip));
}

#[test]
fn a_registered_shader_is_rendered_the_first_time_and_skipped_after() {
    let mut pp = ShaderPreProcessor::new();
    pp.add_shader("other", "text");
    let mut includer = ShaderIncluder::new("base", &pp);
    match includer.call(IncludeArgument::Name("other")) {
        Inclusion::Render(contents) => assert_eq!(contents, "text"),
        _ => panic!("not rendered"),
    }
    assert!(matches!(includer.call(IncludeArgument::Name("other")), Inclusion::Skip));
}

#[test]
fn an_unregistered_shader_fails_the_first_time_and_is_skipped_after() {
    let mut pp = ShaderPreProcessor::new();
    pp.add_shader("z", "");
    pp.add_shader("y", "");
    let mut includer = ShaderIncluder::new("base", &pp);
    assert_eq!(
        failure(includer.call(IncludeArgument::Name("other"))),
        "Included file \"other\" is not registered. All registered files: y, z"
    );
    assert!(matches!(includer.call(IncludeArgument::Name("other")), Inclusion::Skip));
}

#[test]
fn an_embedded_file_is_named_by_prefix_slash_and_path() {
    assert_eq!(embedded_name("rend3", "structures.wgsl"), "rend3/structures.wgsl");
    assert_eq!(embedded_name("", "a/b"), "/a/b");
    assert_eq!(embedded_name("routine", ""), "routine/");
}
