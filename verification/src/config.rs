use vstd::prelude::*;

verus! {

/// Application settings. Reading and writing the configuration file is the
/// application shell's business; the library only holds and updates the
/// values.
#[derive(Debug)]
pub struct AppConfig {
    pub app_name: String,
    pub version: String,
    pub database_path: String,
    pub auto_save_interval: u64,
    pub theme: ThemeConfig,
    pub editor: EditorConfig,
}

/// Theme settings.
#[derive(Debug)]
pub struct ThemeConfig {
    pub name: String,
    pub font_family: String,
    pub font_size: u32,
}

/// Editor settings.
#[derive(Debug)]
pub struct EditorConfig {
    pub spell_check: bool,
    pub auto_save: bool,
    pub tab_size: u32,
    pub word_wrap: bool,
}

impl Default for ThemeConfig {
    fn default() -> (r: Self)
        ensures
            r.name@ == "light"@,
            r.font_family@ == "Microsoft YaHei, SimSun, sans-serif"@,
            r.font_size == 14,
    {
        ThemeConfig {
            name: String::from_str("light"),
            font_family: String::from_str("Microsoft YaHei, SimSun, sans-serif"),
            font_size: 14,
        }
    }
}

impl Default for EditorConfig {
    fn default() -> (r: Self)
        ensures
            r.spell_check,
            r.auto_save,
            r.tab_size == 4,
            r.word_wrap,
    {
        EditorConfig { spell_check: true, auto_save: true, tab_size: 4, word_wrap: true }
    }
}

impl Default for AppConfig {
    fn default() -> (r: Self)
        ensures
            r.app_name@ == "Novel Writer"@,
            r.version@ == "0.1.0"@,
            r.database_path@ == "./novel_writer.db"@,
            r.auto_save_interval == 30,
            r.theme.name@ == "light"@,
            r.theme.font_size == 14,
            r.editor.spell_check,
            r.editor.auto_save,
            r.editor.tab_size == 4,
            r.editor.word_wrap,
    {
        AppConfig {
            app_name: String::from_str("Novel Writer"),
            version: String::from_str("0.1.0"),
            database_path: String::from_str("./novel_writer.db"),
            auto_save_interval: 30,
            theme: ThemeConfig::default(),
            editor: EditorConfig::default(),
        }
    }
}

impl AppConfig {
    /// The application name.
    pub fn get_app_name(&self) -> (r: &str)
        ensures
            r@ == self.app_name@,
    {
        self.app_name.as_str()
    }

    /// The application version.
    pub fn get_version(&self) -> (r: &str)
        ensures
            r@ == self.version@,
    {
        self.version.as_str()
    }

    /// Replace the theme settings.
    pub fn update_theme(&mut self, name: String, font_family: String, font_size: u32)
        ensures
            final(self).theme.name == name,
            final(self).theme.font_family == font_family,
            final(self).theme.font_size == font_size,
            final(self).app_name == old(self).app_name,
            final(self).version == old(self).version,
            final(self).database_path == old(self).database_path,
            final(self).auto_save_interval == old(self).auto_save_interval,
            final(self).editor == old(self).editor,
    {
        self.theme.name = name;
        self.theme.font_family = font_family;
        self.theme.font_size = font_size;
    }

    /// Replace the editor settings.
    pub fn update_editor(&mut self, spell_check: bool, auto_save: bool, tab_size: u32, word_wrap: bool)
        ensures
            final(self).editor.spell_check == spell_check,
            final(self).editor.auto_save == auto_save,
            final(self).editor.tab_size == tab_size,
            final(self).editor.word_wrap == word_wrap,
            final(self).app_name == old(self).app_name,
            final(self).version == old(self).version,
            final(self).database_path == old(self).database_path,
            final(self).auto_save_interval == old(self).auto_save_interval,
            final(self).theme == old(self).theme,
    {
        self.editor.spell_check = spell_check;
        self.editor.auto_save = auto_save;
        self.editor.tab_size = tab_size;
        self.editor.word_wrap = word_wrap;
    }

    /// Replace the auto-save interval, in seconds.
    pub fn update_auto_save_interval(&mut self, interval: u64)
        ensures
            final(self).auto_save_interval == interval,
            final(self).app_name == old(self).app_name,
            final(self).version == old(self).version,
            final(self).database_path == old(self).database_path,
            final(self).theme == old(self).theme,
            final(self).editor == old(self).editor,
    {
        self.auto_save_interval = interval;
    }
}

} // verus!
