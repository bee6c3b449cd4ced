//! Shared localisation for the app, daemon and command-line client.
use crate::text::{
    before_char, before_class, chars_of, char_in_class, decimal, decimal_string, in_class, index_of,
    is_list_separator, lemma_before_class_len, lemma_before_class_prefix, starts_with, string_of_range, trim, trim_bounds,
    trim_by, vec_equals, vec_range, vec_starts_with, CharClass,
};
use vstd::prelude::*;
use vstd::string::*;

verus! {

/// Tenths of a MiB in a byte count, rounded down (the count taken ten
/// times saturates at the largest 64-bit value).
pub open spec fn mib_tenths(bytes: u64) -> nat {
    (if bytes * 10 > u64::MAX {
        u64::MAX as nat
    } else {
        (bytes * 10) as nat
    }) / 1_048_576
}

/// A byte count in MiB with one decimal, rounded down.
pub open spec fn mib_text(bytes: u64) -> Seq<char> {
    decimal(mib_tenths(bytes) / 10) + "."@ + decimal(mib_tenths(bytes) % 10)
}

fn mib_string(bytes: u64) -> (r: String)
    ensures
        r@ == mib_text(bytes),
{
    let scaled: u64 = if bytes > u64::MAX / 10 {
        u64::MAX
    } else {
        bytes * 10
    };
    let tenths = scaled / 1_048_576;
    let mut s = decimal_string(tenths / 10);
    s.append(".");
    let d = decimal_string(tenths % 10);
    s.append(d.as_str());
    s
}

/// Languages currently shipped by MTPDrive.
#[derive(Debug, Clone, Copy, PartialEq, Eq, Structural)]
pub enum Language {
    English,
    SimplifiedChinese,
}

impl Default for Language {
    fn default() -> (r: Self)
        ensures
            r == Language::English,
    {
        Language::English
    }
}

/// Fixed text shared by the graphical app and command-line client.
#[derive(Debug, Clone, Copy)]
pub struct Strings {
    pub devices: &'static str,
    pub logs: &'static str,
    pub settings: &'static str,
    pub settings_description: &'static str,
    pub unmounted: &'static str,
    pub mounting: &'static str,
    pub mount: &'static str,
    pub unmount: &'static str,
    pub open_in_finder: &'static str,
    pub rescan: &'static str,
    pub network_volume: &'static str,
    pub action_required: &'static str,
    pub device_action_required: &'static str,
    pub no_devices: &'static str,
    pub connect_android: &'static str,
    pub unknown: &'static str,
    pub read_write: &'static str,
    pub read_only: &'static str,
    pub clear_view: &'static str,
    pub always_open_in_finder: &'static str,
    pub always_open_in_finder_description: &'static str,
    pub open_at_login: &'static str,
    pub open_at_login_description: &'static str,
    pub open_at_login_requires_approval: &'static str,
    pub open_at_login_unavailable: &'static str,
    pub open_login_items_settings: &'static str,
    pub language: &'static str,
    pub language_description: &'static str,
    pub system_default: &'static str,
    pub theme: &'static str,
    pub theme_description: &'static str,
    pub appearance: &'static str,
    pub light: &'static str,
    pub dark: &'static str,
    pub theme_picker_hint: &'static str,
    pub about: &'static str,
    pub check_for_updates: &'static str,
    pub checking_for_updates: &'static str,
    pub up_to_date: &'static str,
    pub verifying_update: &'static str,
    pub retry_download: &'static str,
    pub show_mtpdrive: &'static str,
    pub rescan_devices: &'static str,
    pub quit_mtpdrive: &'static str,
    pub daemon_program_missing: &'static str,
    pub daemon_start_timeout: &'static str,
    pub service_hint: &'static str,
    pub mount_label: &'static str,
    pub devices_label: &'static str,
    pub last_error_label: &'static str,
    pub no_mtp_devices: &'static str,
    pub serial_label: &'static str,
    pub writable_label: &'static str,
    pub free_label: &'static str,
    pub total_label: &'static str,
    pub yes: &'static str,
    pub no: &'static str,
    pub mtp_device: &'static str,
    pub storage: &'static str,
    pub home_directory_unavailable: &'static str,
    pub rename_unsupported: &'static str,
    pub move_unsupported: &'static str,
    pub upload_unsupported: &'static str,
    pub stage_directory_unsupported: &'static str,
    pub write_too_large: &'static str,
    pub empty_response: &'static str,
    pub io_error: &'static str,
    pub mtp_error: &'static str,
    pub serialization_error: &'static str,
    pub daemon_unavailable: &'static str,
    pub invalid_response: &'static str,
    pub disconnected: &'static str,
    pub not_found: &'static str,
    pub unsupported: &'static str,
    pub operation_failed: &'static str,
}

/// The English text table.
pub open spec fn english_table() -> Strings
{
    Strings {
        devices: "Devices",
        logs: "Logs",
        settings: "Settings",
        settings_description: "Choose how MTPDrive behaves and check for new versions.",
        unmounted: "Not mounted",
        mounting: "Mounting…",
        mount: "Mount",
        unmount: "Unmount",
        open_in_finder: "Open in Finder",
        rescan: "Rescan",
        network_volume: "MTPDrive network volume",
        action_required: "Action required",
        device_action_required: "Device needs attention",
        no_devices: "No available devices",
        connect_android: "Connect Android over USB, then select “File transfer / Android Auto” on the phone.",
        unknown: "Unknown",
        read_write: "Read & Write",
        read_only: "Read Only",
        clear_view: "Clear view",
        always_open_in_finder: "Always Open in Finder",
        always_open_in_finder_description: "Open the MTPDrive volume when the first Android device connects.",
        open_at_login: "Open at Login",
        open_at_login_description: "Start MTPDrive in the menu bar when you sign in to this Mac.",
        open_at_login_requires_approval: "Allow MTPDrive under Login Items in System Settings to finish enabling this option.",
        open_at_login_unavailable: "Open at Login is only available from an installed, signed MTPDrive app.",
        open_login_items_settings: "Open Login Items Settings",
        language: "Language",
        language_description: "Choose the language used by the app and background service.",
        system_default: "System Default",
        theme: "Theme",
        theme_description: "Choose a Material color theme and how MTPDrive follows the system appearance.",
        appearance: "Appearance",
        light: "Light",
        dark: "Dark",
        theme_picker_hint: "Use the palette button to choose the theme color.",
        about: "About",
        check_for_updates: "Check for Updates",
        checking_for_updates: "Checking for updates…",
        up_to_date: "MTPDrive is up to date.",
        verifying_update: "Verifying the downloaded DMG…",
        retry_download: "Retry Download",
        show_mtpdrive: "Show MTPDrive",
        rescan_devices: "Rescan Devices",
        quit_mtpdrive: "Quit MTPDrive",
        daemon_program_missing: "The background service could not be found. Reinstall MTPDrive, or build mtpdrive-cli first when running from a development checkout.",
        daemon_start_timeout: "The background service took too long to start.",
        service_hint: "MTPDrive service is not running; start the app or run `mtpdrive daemon`",
        mount_label: "Mount",
        devices_label: "Devices",
        last_error_label: "Last error",
        no_mtp_devices: "No MTP devices connected.",
        serial_label: "serial",
        writable_label: "writable",
        free_label: "free",
        total_label: "total",
        yes: "yes",
        no: "no",
        mtp_device: "MTP device",
        storage: "Storage",
        home_directory_unavailable: "Could not determine the current user’s home directory",
        rename_unsupported: "The device does not support renaming objects",
        move_unsupported: "The device does not support moving objects",
        upload_unsupported: "The device does not support uploads",
        stage_directory_unsupported: "A directory cannot be staged as a file",
        write_too_large: "The write is too large",
        empty_response: "The service returned an empty response",
        io_error: "I/O error",
        mtp_error: "MTP error",
        serialization_error: "Serialization error",
        daemon_unavailable: "The MTPDrive service is not running",
        invalid_response: "Invalid response from the service",
        disconnected: "The device is disconnected",
        not_found: "The object was not found",
        unsupported: "Operation is not supported",
        operation_failed: "Operation failed",
    }
}

/// The Simplified Chinese text table.
pub open spec fn chinese_table() -> Strings
{
    Strings {
        devices: "设备",
        logs: "日志",
        settings: "设置",
        settings_description: "设置 MTPDrive 的行为并检查新版本。",
        unmounted: "未挂载",
        mounting: "正在挂载…",
        mount: "挂载",
        unmount: "卸载",
        open_in_finder: "在访达中打开",
        rescan: "重新扫描",
        network_volume: "MTPDrive 网络卷",
        action_required: "需要处理",
        device_action_required: "设备需要处理",
        no_devices: "未发现可用设备",
        connect_android: "用 USB 连接 Android，并在手机上选择“文件传输 / Android Auto”。",
        unknown: "未知",
        read_write: "可读写",
        read_only: "只读",
        clear_view: "清空视图",
        always_open_in_finder: "总是在访达中打开",
        always_open_in_finder_description: "连接第一台 Android 设备时自动打开 MTPDrive 网络卷。",
        open_at_login: "登录时打开",
        open_at_login_description: "登录这台 Mac 时在菜单栏中启动 MTPDrive。",
        open_at_login_requires_approval: "请在系统设置的“登录项”中允许 MTPDrive，以完成启用。",
        open_at_login_unavailable: "只有安装并签名的 MTPDrive 应用才能启用登录时打开。",
        open_login_items_settings: "打开登录项设置",
        language: "语言",
        language_description: "选择应用和后台服务使用的语言。",
        system_default: "跟随系统",
        theme: "主题",
        theme_description: "选择 Material 配色，并设置 MTPDrive 如何跟随系统外观。",
        appearance: "外观",
        light: "浅色",
        dark: "深色",
        theme_picker_hint: "点击调色板按钮选择主题颜色。",
        about: "关于",
        check_for_updates: "检查更新",
        checking_for_updates: "正在检查更新…",
        up_to_date: "MTPDrive 已是最新版本。",
        verifying_update: "正在验证下载的 DMG…",
        retry_download: "重新下载",
        show_mtpdrive: "显示 MTPDrive",
        rescan_devices: "重新扫描设备",
        quit_mtpdrive: "退出 MTPDrive",
        daemon_program_missing: "找不到后台服务程序；请重新安装 MTPDrive，或在开发目录先构建 mtpdrive-cli。",
        daemon_start_timeout: "后台服务启动超时。",
        service_hint: "MTPDrive 服务未运行；请启动应用，或运行 `mtpdrive daemon`",
        mount_label: "挂载状态",
        devices_label: "设备",
        last_error_label: "最近错误",
        no_mtp_devices: "没有已连接的 MTP 设备。",
        serial_label: "序列号",
        writable_label: "可写",
        free_label: "可用",
        total_label: "总计",
        yes: "是",
        no: "否",
        mtp_device: "MTP 设备",
        storage: "存储空间",
        home_directory_unavailable: "无法确定当前用户的个人目录",
        rename_unsupported: "设备不支持重命名对象",
        move_unsupported: "设备不支持移动对象",
        upload_unsupported: "设备不支持上传",
        stage_directory_unsupported: "无法将目录作为文件暂存",
        write_too_large: "写入的数据过大",
        empty_response: "服务返回了空响应",
        io_error: "I/O 错误",
        mtp_error: "MTP 错误",
        serialization_error: "序列化错误",
        daemon_unavailable: "MTPDrive 服务未运行",
        invalid_response: "服务返回了无效响应",
        disconnected: "设备已断开连接",
        not_found: "找不到对象",
        unsupported: "不支持此操作",
        operation_failed: "操作失败",
    }
}

fn english_strings() -> (r: Strings)
    ensures
        r == english_table(),

{
    Strings {
        devices: "Devices",
        logs: "Logs",
        settings: "Settings",
        settings_description: "Choose how MTPDrive behaves and check for new versions.",
        unmounted: "Not mounted",
        mounting: "Mounting…",
        mount: "Mount",
        unmount: "Unmount",
        open_in_finder: "Open in Finder",
        rescan: "Rescan",
        network_volume: "MTPDrive network volume",
        action_required: "Action required",
        device_action_required: "Device needs attention",
        no_devices: "No available devices",
        connect_android: "Connect Android over USB, then select “File transfer / Android Auto” on the phone.",
        unknown: "Unknown",
        read_write: "Read & Write",
        read_only: "Read Only",
        clear_view: "Clear view",
        always_open_in_finder: "Always Open in Finder",
        always_open_in_finder_description: "Open the MTPDrive volume when the first Android device connects.",
        open_at_login: "Open at Login",
        open_at_login_description: "Start MTPDrive in the menu bar when you sign in to this Mac.",
        open_at_login_requires_approval: "Allow MTPDrive under Login Items in System Settings to finish enabling this option.",
        open_at_login_unavailable: "Open at Login is only available from an installed, signed MTPDrive app.",
        open_login_items_settings: "Open Login Items Settings",
        language: "Language",
        language_description: "Choose the language used by the app and background service.",
        system_default: "System Default",
        theme: "Theme",
        theme_description: "Choose a Material color theme and how MTPDrive follows the system appearance.",
        appearance: "Appearance",
        light: "Light",
        dark: "Dark",
        theme_picker_hint: "Use the palette button to choose the theme color.",
        about: "About",
        check_for_updates: "Check for Updates",
        checking_for_updates: "Checking for updates…",
        up_to_date: "MTPDrive is up to date.",
        verifying_update: "Verifying the downloaded DMG…",
        retry_download: "Retry Download",
        show_mtpdrive: "Show MTPDrive",
        rescan_devices: "Rescan Devices",
        quit_mtpdrive: "Quit MTPDrive",
        daemon_program_missing: "The background service could not be found. Reinstall MTPDrive, or build mtpdrive-cli first when running from a development checkout.",
        daemon_start_timeout: "The background service took too long to start.",
        service_hint: "MTPDrive service is not running; start the app or run `mtpdrive daemon`",
        mount_label: "Mount",
        devices_label: "Devices",
        last_error_label: "Last error",
        no_mtp_devices: "No MTP devices connected.",
        serial_label: "serial",
        writable_label: "writable",
        free_label: "free",
        total_label: "total",
        yes: "yes",
        no: "no",
        mtp_device: "MTP device",
        storage: "Storage",
        home_directory_unavailable: "Could not determine the current user’s home directory",
        rename_unsupported: "The device does not support renaming objects",
        move_unsupported: "The device does not support moving objects",
        upload_unsupported: "The device does not support uploads",
        stage_directory_unsupported: "A directory cannot be staged as a file",
        write_too_large: "The write is too large",
        empty_response: "The service returned an empty response",
        io_error: "I/O error",
        mtp_error: "MTP error",
        serialization_error: "Serialization error",
        daemon_unavailable: "The MTPDrive service is not running",
        invalid_response: "Invalid response from the service",
        disconnected: "The device is disconnected",
        not_found: "The object was not found",
        unsupported: "Operation is not supported",
        operation_failed: "Operation failed",
    }
}

fn chinese_strings() -> (r: Strings)
    ensures
        r == chinese_table(),

{
    Strings {
        devices: "设备",
        logs: "日志",
        settings: "设置",
        settings_description: "设置 MTPDrive 的行为并检查新版本。",
        unmounted: "未挂载",
        mounting: "正在挂载…",
        mount: "挂载",
        unmount: "卸载",
        open_in_finder: "在访达中打开",
        rescan: "重新扫描",
        network_volume: "MTPDrive 网络卷",
        action_required: "需要处理",
        device_action_required: "设备需要处理",
        no_devices: "未发现可用设备",
        connect_android: "用 USB 连接 Android，并在手机上选择“文件传输 / Android Auto”。",
        unknown: "未知",
        read_write: "可读写",
        read_only: "只读",
        clear_view: "清空视图",
        always_open_in_finder: "总是在访达中打开",
        always_open_in_finder_description: "连接第一台 Android 设备时自动打开 MTPDrive 网络卷。",
        open_at_login: "登录时打开",
        open_at_login_description: "登录这台 Mac 时在菜单栏中启动 MTPDrive。",
        open_at_login_requires_approval: "请在系统设置的“登录项”中允许 MTPDrive，以完成启用。",
        open_at_login_unavailable: "只有安装并签名的 MTPDrive 应用才能启用登录时打开。",
        open_login_items_settings: "打开登录项设置",
        language: "语言",
        language_description: "选择应用和后台服务使用的语言。",
        system_default: "跟随系统",
        theme: "主题",
        theme_description: "选择 Material 配色，并设置 MTPDrive 如何跟随系统外观。",
        appearance: "外观",
        light: "浅色",
        dark: "深色",
        theme_picker_hint: "点击调色板按钮选择主题颜色。",
        about: "关于",
        check_for_updates: "检查更新",
        checking_for_updates: "正在检查更新…",
        up_to_date: "MTPDrive 已是最新版本。",
        verifying_update: "正在验证下载的 DMG…",
        retry_download: "重新下载",
        show_mtpdrive: "显示 MTPDrive",
        rescan_devices: "重新扫描设备",
        quit_mtpdrive: "退出 MTPDrive",
        daemon_program_missing: "找不到后台服务程序；请重新安装 MTPDrive，或在开发目录先构建 mtpdrive-cli。",
        daemon_start_timeout: "后台服务启动超时。",
        service_hint: "MTPDrive 服务未运行；请启动应用，或运行 `mtpdrive daemon`",
        mount_label: "挂载状态",
        devices_label: "设备",
        last_error_label: "最近错误",
        no_mtp_devices: "没有已连接的 MTP 设备。",
        serial_label: "序列号",
        writable_label: "可写",
        free_label: "可用",
        total_label: "总计",
        yes: "是",
        no: "否",
        mtp_device: "MTP 设备",
        storage: "存储空间",
        home_directory_unavailable: "无法确定当前用户的个人目录",
        rename_unsupported: "设备不支持重命名对象",
        move_unsupported: "设备不支持移动对象",
        upload_unsupported: "设备不支持上传",
        stage_directory_unsupported: "无法将目录作为文件暂存",
        write_too_large: "写入的数据过大",
        empty_response: "服务返回了空响应",
        io_error: "I/O 错误",
        mtp_error: "MTP 错误",
        serialization_error: "序列化错误",
        daemon_unavailable: "MTPDrive 服务未运行",
        invalid_response: "服务返回了无效响应",
        disconnected: "设备已断开连接",
        not_found: "找不到对象",
        unsupported: "不支持此操作",
        operation_failed: "操作失败",
    }
}

impl Language {
    /// The BCP-47 code of the language.
    pub fn code(self) -> (r: &'static str)
        ensures
            r@ == (match self {
                Language::English => "en"@,
                Language::SimplifiedChinese => "zh-Hans"@,
            }),
    {
        match self {
            Language::English => "en",
            Language::SimplifiedChinese => "zh-Hans",
        }
    }

    /// "Mounted at" and the mount point.
    pub open spec fn mounted_at_text(self, path: Seq<char>) -> Seq<char> {
        match self {
            Language::English => "Mounted at "@ + path,
            Language::SimplifiedChinese => "已挂载到 "@ + path,
        }
    }

    /// "Mount failed" and the error.
    pub open spec fn mount_failed_text(self, error: Seq<char>) -> Seq<char> {
        match self {
            Language::English => "Mount failed: "@ + error,
            Language::SimplifiedChinese => "挂载失败："@ + error,
        }
    }

    /// The free and the total capacity of a storage.
    pub open spec fn storage_capacity_text(self, free: Seq<char>, total: Seq<char>) -> Seq<char> {
        match self {
            Language::English => free + " available of "@ + total,
            Language::SimplifiedChinese => free + " 可用，共 "@ + total,
        }
    }

    /// The serial number, USB speed and access of a device.
    pub open spec fn device_details_text(self, serial: Seq<char>, usb: Seq<char>, writable: bool) -> Seq<char> {
        let access = if writable {
            self.table().read_write@
        } else {
            self.table().read_only@
        };
        match self {
            Language::English => "Serial "@ + serial + "  ·  USB "@ + usb + "  ·  "@ + access,
            Language::SimplifiedChinese => "序列号 "@ + serial + "  ·  USB "@ + usb + "  ·  "@
                + access,
        }
    }

    /// The update image was downloaded to `path` and opened.
    pub open spec fn update_downloaded_text(self, path: Seq<char>) -> Seq<char> {
        match self {
            Language::English => "Downloaded and opened "@ + path,
            Language::SimplifiedChinese => "已下载并打开 "@ + path,
        }
    }

    /// Downloading or opening the update failed with `error`.
    pub open spec fn update_download_failed_text(self, error: Seq<char>) -> Seq<char> {
        match self {
            Language::English => "Could not download or open the update: "@ + error,
            Language::SimplifiedChinese => "无法下载或打开更新："@ + error,
        }
    }

    /// Checking for updates failed with `error`.
    pub open spec fn update_check_failed_text(self, error: Seq<char>) -> Seq<char> {
        match self {
            Language::English => "Could not check for updates: "@ + error,
            Language::SimplifiedChinese => "检查更新失败："@ + error,
        }
    }

    /// The progress line of an update download.
    pub open spec fn downloading_update_text(self, downloaded: u64, total: u64, percent: Seq<char>) -> Seq<char> {
        match self {
            Language::English => "Downloading… "@ + percent + "% ("@ + mib_text(downloaded)
                + " of "@ + mib_text(total) + " MiB)"@,
            Language::SimplifiedChinese => "正在下载… "@ + percent + "%（"@ + mib_text(downloaded)
                + " / "@ + mib_text(total) + " MiB）"@,
        }
    }

    /// The fixed text table of the language.
    pub open spec fn table(self) -> Strings {
        match self {
            Language::English => english_table(),
            Language::SimplifiedChinese => chinese_table(),
        }
    }

    /// The fixed text of the language.
    pub fn strings(self) -> (r: Strings)
        ensures
            r == self.table(),
    {
        match self {
            Language::English => english_strings(),
            Language::SimplifiedChinese => chinese_strings(),
        }
    }

    pub fn device_count(self, count: usize) -> (r: String)
        ensures
            r@ == (match self {
                Language::English => if count == 1 {
                    "1 Android MTP device"@
                } else {
                    decimal(count as nat) + " Android MTP devices"@
                },
                Language::SimplifiedChinese => decimal(count as nat) + " 台 Android MTP 设备"@,
            }),
    {
        match self {
            Language::English => {
                if count == 1 {
                    String::from_str("1 Android MTP device")
                } else {
                    let s = decimal_string(count as u64);
                    s.concat(" Android MTP devices")
                }
            },
            Language::SimplifiedChinese => {
                let s = decimal_string(count as u64);
                s.concat(" 台 Android MTP 设备")
            },
        }
    }

    pub fn device_details(self, serial: &str, usb: &str, writable: bool) -> (r: String)
        ensures
            r@ == self.device_details_text(serial@, usb@, writable),
    {
        let strings = self.strings();
        let access = if writable {
            strings.read_write
        } else {
            strings.read_only
        };
        let mut s = match self {
            Language::English => String::from_str("Serial "),
            Language::SimplifiedChinese => String::from_str("序列号 "),
        };
        s.append(serial);
        s.append("  ·  USB ");
        s.append(usb);
        s.append("  ·  ");
        s.append(access);
        s
    }

    pub fn recent_log_count(self, count: usize) -> (r: String)
        ensures
            r@ == (match self {
                Language::English => if count == 1 {
                    "The background service’s most recent structured record"@
                } else {
                    "The background service’s "@ + decimal(count as nat)
                        + " most recent structured records"@
                },
                Language::SimplifiedChinese => "后台服务的最近 "@ + decimal(count as nat)
                    + " 条结构化记录"@,
            }),
    {
        match self {
            Language::English => {
                if count == 1 {
                    String::from_str("The background service’s most recent structured record")
                } else {
                    let mut s = String::from_str("The background service’s ");
                    let digits = decimal_string(count as u64);
                    s.append(digits.as_str());
                    s.append(" most recent structured records");
                    s
                }
            },
            Language::SimplifiedChinese => {
                let mut s = String::from_str("后台服务的最近 ");
                let digits = decimal_string(count as u64);
                s.append(digits.as_str());
                s.append(" 条结构化记录");
                s
            },
        }
    }

    pub fn mounted_at(self, path: &str) -> (r: String)
        ensures
            r@ == self.mounted_at_text(path@),
    {
        match self {
            Language::English => {
                let mut s = String::from_str("Mounted at ");
                s.append(path);
                s
            },
            Language::SimplifiedChinese => {
                let mut s = String::from_str("已挂载到 ");
                s.append(path);
                s
            },
        }
    }

    pub fn mount_failed(self, error: &str) -> (r: String)
        ensures
            r@ == self.mount_failed_text(error@),
    {
        match self {
            Language::English => {
                let mut s = String::from_str("Mount failed: ");
                s.append(error);
                s
            },
            Language::SimplifiedChinese => {
                let mut s = String::from_str("挂载失败：");
                s.append(error);
                s
            },
        }
    }

    pub fn storage_capacity(self, free: &str, total: &str) -> (r: String)
        ensures
            r@ == self.storage_capacity_text(free@, total@),
    {
        match self {
            Language::English => {
                let mut s = String::new();
                s.append(free);
                s.append(" available of ");
                s.append(total);
                s
            },
            Language::SimplifiedChinese => {
                let mut s = String::new();
                s.append(free);
                s.append(" 可用，共 ");
                s.append(total);
                s
            },
        }
    }

    pub fn current_version(self, version: &str) -> (r: String)
        ensures
            r@ == (match self {
                Language::English => "Current version: "@ + version@,
                Language::SimplifiedChinese => "当前版本："@ + version@,
            }),
    {
        match self {
            Language::English => {
                let mut s = String::from_str("Current version: ");
                s.append(version);
                s
            },
            Language::SimplifiedChinese => {
                let mut s = String::from_str("当前版本：");
                s.append(version);
                s
            },
        }
    }

    /// The progress line of an update download: the percentage (as the app
    /// rounds it) and the MiB received of the total.
    pub fn downloading_update(self, downloaded: u64, total: u64, percent: &str) -> (r: String)
        ensures
            r@ == self.downloading_update_text(downloaded, total, percent@),
    {
        let done = mib_string(downloaded);
        let all = mib_string(total);
        match self {
            Language::English => {
                let mut s = String::from_str("Downloading… ");
                s.append(percent);
                s.append("% (");
                s.append(done.as_str());
                s.append(" of ");
                s.append(all.as_str());
                s.append(" MiB)");
                s
            },
            Language::SimplifiedChinese => {
                let mut s = String::from_str("正在下载… ");
                s.append(percent);
                s.append("%（");
                s.append(done.as_str());
                s.append(" / ");
                s.append(all.as_str());
                s.append(" MiB）");
                s
            },
        }
    }

    pub fn update_downloaded(self, path: &str) -> (r: String)
        ensures
            r@ == self.update_downloaded_text(path@),
    {
        match self {
            Language::English => {
                let mut s = String::from_str("Downloaded and opened ");
                s.append(path);
                s
            },
            Language::SimplifiedChinese => {
                let mut s = String::from_str("已下载并打开 ");
                s.append(path);
                s
            },
        }
    }

    pub fn update_download_failed(self, error: &str) -> (r: String)
        ensures
            r@ == self.update_download_failed_text(error@),
    {
        match self {
            Language::English => {
                let mut s = String::from_str("Could not download or open the update: ");
                s.append(error);
                s
            },
            Language::SimplifiedChinese => {
                let mut s = String::from_str("无法下载或打开更新：");
                s.append(error);
                s
            },
        }
    }

    pub fn update_check_failed(self, error: &str) -> (r: String)
        ensures
            r@ == self.update_check_failed_text(error@),
    {
        match self {
            Language::English => {
                let mut s = String::from_str("Could not check for updates: ");
                s.append(error);
                s
            },
            Language::SimplifiedChinese => {
                let mut s = String::from_str("检查更新失败：");
                s.append(error);
                s
            },
        }
    }

    pub fn open_at_login_failed(self, error: &str) -> (r: String)
        ensures
            r@ == (match self {
                Language::English => "Could not update Open at Login: "@ + error@,
                Language::SimplifiedChinese => "无法更新“登录时打开”："@ + error@,
            }),
    {
        match self {
            Language::English => {
                let mut s = String::from_str("Could not update Open at Login: ");
                s.append(error);
                s
            },
            Language::SimplifiedChinese => {
                let mut s = String::from_str("无法更新“登录时打开”：");
                s.append(error);
                s
            },
        }
    }

    pub fn tray_creation_failed(self, error: &str) -> (r: String)
        ensures
            r@ == (match self {
                Language::English => "Could not create the menu bar icon: "@ + error@,
                Language::SimplifiedChinese => "无法创建菜单栏图标："@ + error@,
            }),
    {
        match self {
            Language::English => {
                let mut s = String::from_str("Could not create the menu bar icon: ");
                s.append(error);
                s
            },
            Language::SimplifiedChinese => {
                let mut s = String::from_str("无法创建菜单栏图标：");
                s.append(error);
                s
            },
        }
    }

    pub fn invalid_log_response(self, response: &str) -> (r: String)
        ensures
            r@ == (match self {
                Language::English => "Invalid background log response: "@ + response@,
                Language::SimplifiedChinese => "后台日志响应无效："@ + response@,
            }),
    {
        match self {
            Language::English => {
                let mut s = String::from_str("Invalid background log response: ");
                s.append(response);
                s
            },
            Language::SimplifiedChinese => {
                let mut s = String::from_str("后台日志响应无效：");
                s.append(response);
                s
            },
        }
    }

    pub fn daemon_start_failed(self, path: &str, error: &str) -> (r: String)
        ensures
            r@ == (match self {
                Language::English => "Could not start the background service at "@ + path@ + ": "@ + error@,
                Language::SimplifiedChinese => "无法启动后台服务 "@ + path@ + "："@ + error@,
            }),
    {
        match self {
            Language::English => {
                let mut s = String::from_str("Could not start the background service at ");
                s.append(path);
                s.append(": ");
                s.append(error);
                s
            },
            Language::SimplifiedChinese => {
                let mut s = String::from_str("无法启动后台服务 ");
                s.append(path);
                s.append("：");
                s.append(error);
                s
            },
        }
    }

    /// The message for a reply of the wrong kind.
    pub open spec fn unexpected_daemon_response_text(self, response: Seq<char>) -> Seq<char> {
        match self {
            Language::English => "Unexpected service response: "@ + response,
            Language::SimplifiedChinese => "服务返回了意外响应："@ + response,
        }
    }

    pub fn unexpected_daemon_response(self, response: &str) -> (r: String)
        ensures
            r@ == self.unexpected_daemon_response_text(response@),
    {
        match self {
            Language::English => {
                let mut s = String::from_str("Unexpected service response: ");
                s.append(response);
                s
            },
            Language::SimplifiedChinese => {
                let mut s = String::from_str("服务返回了意外响应：");
                s.append(response);
                s
            },
        }
    }

    pub fn daemon_starting(self, version: &str) -> (r: String)
        ensures
            r@ == (match self {
                Language::English => "MTPDrive "@ + version@ + " starting"@,
                Language::SimplifiedChinese => "MTPDrive "@ + version@ + " 正在启动"@,
            }),
    {
        match self {
            Language::English => {
                let mut s = String::from_str("MTPDrive ");
                s.append(version);
                s.append(" starting");
                s
            },
            Language::SimplifiedChinese => {
                let mut s = String::from_str("MTPDrive ");
                s.append(version);
                s.append(" 正在启动");
                s
            },
        }
    }

    pub fn nfs_listening(self, port: u16) -> (r: String)
        ensures
            r@ == (match self {
                Language::English => "NFSv3 listening on 127.0.0.1:"@ + decimal(port as nat),
                Language::SimplifiedChinese => "NFSv3 正在监听 127.0.0.1:"@ + decimal(port as nat),
            }),
    {
        match self {
            Language::English => {
                let mut s = String::from_str("NFSv3 listening on 127.0.0.1:");
                let digits = decimal_string(port as u64);
                s.append(digits.as_str());
                s
            },
            Language::SimplifiedChinese => {
                let mut s = String::from_str("NFSv3 正在监听 127.0.0.1:");
                let digits = decimal_string(port as u64);
                s.append(digits.as_str());
                s
            },
        }
    }

    pub fn nfs_start_failed(self, error: &str) -> (r: String)
        ensures
            r@ == (match self {
                Language::English => "NFS server did not start: "@ + error@,
                Language::SimplifiedChinese => "NFS 服务未能启动："@ + error@,
            }),
    {
        match self {
            Language::English => {
                let mut s = String::from_str("NFS server did not start: ");
                s.append(error);
                s
            },
            Language::SimplifiedChinese => {
                let mut s = String::from_str("NFS 服务未能启动：");
                s.append(error);
                s
            },
        }
    }

    pub fn daemon_shutting_down(self) -> (r: &'static str)
        ensures
            r@ == (match self {
                Language::English => "MTPDrive shutting down"@,
                Language::SimplifiedChinese => "MTPDrive 正在退出"@,
            }),
    {
        match self {
            Language::English => "MTPDrive shutting down",
            Language::SimplifiedChinese => "MTPDrive 正在退出",
        }
    }

    pub fn flush_before_exit_failed(self, error: &str) -> (r: String)
        ensures
            r@ == (match self {
                Language::English => "Could not upload staged files before exit: "@ + error@,
                Language::SimplifiedChinese => "退出前提交暂存文件失败："@ + error@,
            }),
    {
        match self {
            Language::English => {
                let mut s = String::from_str("Could not upload staged files before exit: ");
                s.append(error);
                s
            },
            Language::SimplifiedChinese => {
                let mut s = String::from_str("退出前提交暂存文件失败：");
                s.append(error);
                s
            },
        }
    }

    pub fn nfs_stopped_with_error(self, error: &str) -> (r: String)
        ensures
            r@ == (match self {
                Language::English => "NFS server stopped with an error: "@ + error@,
                Language::SimplifiedChinese => "NFS 服务异常停止："@ + error@,
            }),
    {
        match self {
            Language::English => {
                let mut s = String::from_str("NFS server stopped with an error: ");
                s.append(error);
                s
            },
            Language::SimplifiedChinese => {
                let mut s = String::from_str("NFS 服务异常停止：");
                s.append(error);
                s
            },
        }
    }

    pub fn nfs_task_failed(self, error: &str) -> (r: String)
        ensures
            r@ == (match self {
                Language::English => "NFS server task failed: "@ + error@,
                Language::SimplifiedChinese => "NFS 服务任务失败："@ + error@,
            }),
    {
        match self {
            Language::English => {
                let mut s = String::from_str("NFS server task failed: ");
                s.append(error);
                s
            },
            Language::SimplifiedChinese => {
                let mut s = String::from_str("NFS 服务任务失败：");
                s.append(error);
                s
            },
        }
    }

    pub fn nfs_shutdown_timeout(self) -> (r: &'static str)
        ensures
            r@ == (match self {
                Language::English => "NFS server shutdown timed out"@,
                Language::SimplifiedChinese => "NFS 服务退出超时"@,
            }),
    {
        match self {
            Language::English => "NFS server shutdown timed out",
            Language::SimplifiedChinese => "NFS 服务退出超时",
        }
    }

    pub fn daemon_already_running(self) -> (r: &'static str)
        ensures
            r@ == (match self {
                Language::English => "MTPDrive service is already running"@,
                Language::SimplifiedChinese => "MTPDrive 服务已在运行"@,
            }),
    {
        match self {
            Language::English => "MTPDrive service is already running",
            Language::SimplifiedChinese => "MTPDrive 服务已在运行",
        }
    }

    pub fn wait_for_nfs_timeout(self, port: u16) -> (r: String)
        ensures
            r@ == (match self {
                Language::English => "Timed out waiting for 127.0.0.1:"@ + decimal(port as nat),
                Language::SimplifiedChinese => "等待 127.0.0.1:"@ + decimal(port as nat) + " 超时"@,
            }),
    {
        match self {
            Language::English => {
                let mut s = String::from_str("Timed out waiting for 127.0.0.1:");
                let digits = decimal_string(port as u64);
                s.append(digits.as_str());
                s
            },
            Language::SimplifiedChinese => {
                let mut s = String::from_str("等待 127.0.0.1:");
                let digits = decimal_string(port as u64);
                s.append(digits.as_str());
                s.append(" 超时");
                s
            },
        }
    }

    pub fn device_scan_failed(self, error: &str) -> (r: String)
        ensures
            r@ == (match self {
                Language::English => "Device scan failed: "@ + error@,
                Language::SimplifiedChinese => "扫描设备失败："@ + error@,
            }),
    {
        match self {
            Language::English => {
                let mut s = String::from_str("Device scan failed: ");
                s.append(error);
                s
            },
            Language::SimplifiedChinese => {
                let mut s = String::from_str("扫描设备失败：");
                s.append(error);
                s
            },
        }
    }

    pub fn device_enumeration_failed(self, error: &str) -> (r: String)
        ensures
            r@ == (match self {
                Language::English => "Device enumeration task failed: "@ + error@,
                Language::SimplifiedChinese => "枚举设备任务失败："@ + error@,
            }),
    {
        match self {
            Language::English => {
                let mut s = String::from_str("Device enumeration task failed: ");
                s.append(error);
                s
            },
            Language::SimplifiedChinese => {
                let mut s = String::from_str("枚举设备任务失败：");
                s.append(error);
                s
            },
        }
    }

    /// The message for a reply that is not a snapshot.
    pub open spec fn expected_snapshot_text(self, response: Seq<char>) -> Seq<char> {
        match self {
            Language::English => "Expected a status snapshot, got "@ + response,
            Language::SimplifiedChinese => "预期获得状态快照，却收到 "@ + response,
        }
    }

    pub fn expected_snapshot(self, response: &str) -> (r: String)
        ensures
            r@ == self.expected_snapshot_text(response@),
    {
        match self {
            Language::English => {
                let mut s = String::from_str("Expected a status snapshot, got ");
                s.append(response);
                s
            },
            Language::SimplifiedChinese => {
                let mut s = String::from_str("预期获得状态快照，却收到 ");
                s.append(response);
                s
            },
        }
    }

    pub fn reconnect_commit_failed(self, error: &str) -> (r: String)
        ensures
            r@ == (match self {
                Language::English => "Could not upload staged files after reconnecting: "@ + error@,
                Language::SimplifiedChinese => "重新连接后提交暂存文件失败："@ + error@,
            }),
    {
        match self {
            Language::English => {
                let mut s = String::from_str("Could not upload staged files after reconnecting: ");
                s.append(error);
                s
            },
            Language::SimplifiedChinese => {
                let mut s = String::from_str("重新连接后提交暂存文件失败：");
                s.append(error);
                s
            },
        }
    }

    pub fn device_disconnected(self, key: &str) -> (r: String)
        ensures
            r@ == (match self {
                Language::English => "Device disconnected: "@ + key@,
                Language::SimplifiedChinese => "设备已断开连接："@ + key@,
            }),
    {
        match self {
            Language::English => {
                let mut s = String::from_str("Device disconnected: ");
                s.append(key);
                s
            },
            Language::SimplifiedChinese => {
                let mut s = String::from_str("设备已断开连接：");
                s.append(key);
                s
            },
        }
    }

    pub fn device_connected(self, manufacturer: &str, model: &str) -> (r: String)
        ensures
            r@ == (match self {
                Language::English => "Connected to "@ + manufacturer@ + " "@ + model@,
                Language::SimplifiedChinese => "已连接到 "@ + manufacturer@ + " "@ + model@,
            }),
    {
        match self {
            Language::English => {
                let mut s = String::from_str("Connected to ");
                s.append(manufacturer);
                s.append(" ");
                s.append(model);
                s
            },
            Language::SimplifiedChinese => {
                let mut s = String::from_str("已连接到 ");
                s.append(manufacturer);
                s.append(" ");
                s.append(model);
                s
            },
        }
    }

    pub fn image_capture_reclaimed(self, count: usize) -> (r: String)
        ensures
            r@ == (match self {
                Language::English => "Stopped "@ + decimal(count as nat) + " macOS Image Capture process(es); claiming the MTP interface"@,
                Language::SimplifiedChinese => "已结束 "@ + decimal(count as nat) + " 个 macOS 图像捕捉进程，正在接管 MTP 接口"@,
            }),
    {
        match self {
            Language::English => {
                let mut s = String::from_str("Stopped ");
                let digits = decimal_string(count as u64);
                s.append(digits.as_str());
                s.append(" macOS Image Capture process(es); claiming the MTP interface");
                s
            },
            Language::SimplifiedChinese => {
                let mut s = String::from_str("已结束 ");
                let digits = decimal_string(count as u64);
                s.append(digits.as_str());
                s.append(" 个 macOS 图像捕捉进程，正在接管 MTP 接口");
                s
            },
        }
    }

    pub fn image_capture_reclaim_failed(self, error: &str) -> (r: String)
        ensures
            r@ == (match self {
                Language::English => "Could not stop macOS Image Capture: "@ + error@,
                Language::SimplifiedChinese => "无法结束 macOS 图像捕捉进程："@ + error@,
            }),
    {
        match self {
            Language::English => {
                let mut s = String::from_str("Could not stop macOS Image Capture: ");
                s.append(error);
                s
            },
            Language::SimplifiedChinese => {
                let mut s = String::from_str("无法结束 macOS 图像捕捉进程：");
                s.append(error);
                s
            },
        }
    }

    pub fn storage_refresh_failed(self, key: &str, error: &str) -> (r: String)
        ensures
            r@ == (match self {
                Language::English => "Could not refresh storage for "@ + key@ + ": "@ + error@,
                Language::SimplifiedChinese => "刷新 "@ + key@ + " 的存储信息失败："@ + error@,
            }),
    {
        match self {
            Language::English => {
                let mut s = String::from_str("Could not refresh storage for ");
                s.append(key);
                s.append(": ");
                s.append(error);
                s
            },
            Language::SimplifiedChinese => {
                let mut s = String::from_str("刷新 ");
                s.append(key);
                s.append(" 的存储信息失败：");
                s.append(error);
                s
            },
        }
    }

    /// The message for a device that could not be opened.
    pub open spec fn open_device_failed_text(self, key: Seq<char>, detail: Seq<char>) -> Seq<char> {
        match self {
            Language::English => "Could not open Android device "@ + key + ": "@ + detail,
            Language::SimplifiedChinese => "无法打开 Android 设备 "@ + key + "："@ + detail,
        }
    }

    pub fn open_device_failed(self, key: &str, detail: &str) -> (r: String)
        ensures
            r@ == self.open_device_failed_text(key@, detail@),
    {
        match self {
            Language::English => {
                let mut s = String::from_str("Could not open Android device ");
                s.append(key);
                s.append(": ");
                s.append(detail);
                s
            },
            Language::SimplifiedChinese => {
                let mut s = String::from_str("无法打开 Android 设备 ");
                s.append(key);
                s.append("：");
                s.append(detail);
                s
            },
        }
    }

    /// The message for a device that another process holds exclusively.
    pub open spec fn device_exclusively_held_text(self, key: Seq<char>) -> Seq<char> {
        match self {
            Language::English => "Could not open Android device "@ + key + " because another app has exclusive access. Close Preview, Photos, Image Capture, or any other app using the phone; reconnect USB; then select “File transfer / Android Auto” on the phone."@,
            Language::SimplifiedChinese => "无法打开 Android 设备 "@ + key + "：它正被另一个程序独占。请关闭“预览”、“照片”或“图像捕捉”等正在访问手机的程序，重新连接 USB，并在手机上选择“文件传输 / Android Auto”。"@,
        }
    }

    pub fn device_exclusively_held(self, key: &str) -> (r: String)
        ensures
            r@ == self.device_exclusively_held_text(key@),
    {
        match self {
            Language::English => {
                let mut s = String::from_str("Could not open Android device ");
                s.append(key);
                s.append(" because another app has exclusive access. Close Preview, Photos, Image Capture, or any other app using the phone; reconnect USB; then select “File transfer / Android Auto” on the phone.");
                s
            },
            Language::SimplifiedChinese => {
                let mut s = String::from_str("无法打开 Android 设备 ");
                s.append(key);
                s.append("：它正被另一个程序独占。请关闭“预览”、“照片”或“图像捕捉”等正在访问手机的程序，重新连接 USB，并在手机上选择“文件传输 / Android Auto”。");
                s
            },
        }
    }

    pub fn committing_staged_file(self) -> (r: &'static str)
        ensures
            r@ == (match self {
                Language::English => "Committing staged file"@,
                Language::SimplifiedChinese => "正在提交暂存文件"@,
            }),
    {
        match self {
            Language::English => "Committing staged file",
            Language::SimplifiedChinese => "正在提交暂存文件",
        }
    }

    pub fn background_commit_failed(self, error: &str) -> (r: String)
        ensures
            r@ == (match self {
                Language::English => "Background upload of a staged file failed: "@ + error@,
                Language::SimplifiedChinese => "后台提交暂存文件失败："@ + error@,
            }),
    {
        match self {
            Language::English => {
                let mut s = String::from_str("Background upload of a staged file failed: ");
                s.append(error);
                s
            },
            Language::SimplifiedChinese => {
                let mut s = String::from_str("后台提交暂存文件失败：");
                s.append(error);
                s
            },
        }
    }

    pub fn uploaded(self, name: &str) -> (r: String)
        ensures
            r@ == (match self {
                Language::English => "Uploaded "@ + name@,
                Language::SimplifiedChinese => "已上传 "@ + name@,
            }),
    {
        match self {
            Language::English => {
                let mut s = String::from_str("Uploaded ");
                s.append(name);
                s
            },
            Language::SimplifiedChinese => {
                let mut s = String::from_str("已上传 ");
                s.append(name);
                s
            },
        }
    }

    pub fn mounted(self, path: &str) -> (r: String)
        ensures
            r@ == (match self {
                Language::English => "Mounted "@ + path@,
                Language::SimplifiedChinese => "已挂载 "@ + path@,
            }),
    {
        match self {
            Language::English => {
                let mut s = String::from_str("Mounted ");
                s.append(path);
                s
            },
            Language::SimplifiedChinese => {
                let mut s = String::from_str("已挂载 ");
                s.append(path);
                s
            },
        }
    }

    pub fn unmounted_log(self) -> (r: &'static str)
        ensures
            r@ == (match self {
                Language::English => "Unmounted MTPDrive"@,
                Language::SimplifiedChinese => "已卸载 MTPDrive"@,
            }),
    {
        match self {
            Language::English => "Unmounted MTPDrive",
            Language::SimplifiedChinese => "已卸载 MTPDrive",
        }
    }

    pub fn replacing_stale_mount(self) -> (r: &'static str)
        ensures
            r@ == (match self {
                Language::English => "Replacing a stale MTPDrive mount from an earlier service"@,
                Language::SimplifiedChinese => "正在替换旧服务遗留的失效 MTPDrive 挂载"@,
            }),
    {
        match self {
            Language::English => "Replacing a stale MTPDrive mount from an earlier service",
            Language::SimplifiedChinese => "正在替换旧服务遗留的失效 MTPDrive 挂载",
        }
    }

    /// The message for a failed mount command.
    pub open spec fn mount_command_failed_text(self, error: Seq<char>) -> Seq<char> {
        match self {
            Language::English => "mount_nfs failed: "@ + error,
            Language::SimplifiedChinese => "mount_nfs 执行失败："@ + error,
        }
    }

    pub fn mount_command_failed(self, error: &str) -> (r: String)
        ensures
            r@ == self.mount_command_failed_text(error@),
    {
        match self {
            Language::English => {
                let mut s = String::from_str("mount_nfs failed: ");
                s.append(error);
                s
            },
            Language::SimplifiedChinese => {
                let mut s = String::from_str("mount_nfs 执行失败：");
                s.append(error);
                s
            },
        }
    }

    /// The message for a failed unmount.
    pub open spec fn unmount_failed_text(self, error: Seq<char>) -> Seq<char> {
        match self {
            Language::English => "Unmount failed: "@ + error,
            Language::SimplifiedChinese => "卸载失败："@ + error,
        }
    }

    pub fn unmount_failed(self, error: &str) -> (r: String)
        ensures
            r@ == self.unmount_failed_text(error@),
    {
        match self {
            Language::English => {
                let mut s = String::from_str("Unmount failed: ");
                s.append(error);
                s
            },
            Language::SimplifiedChinese => {
                let mut s = String::from_str("卸载失败：");
                s.append(error);
                s
            },
        }
    }

    pub fn finder_open_failed(self) -> (r: &'static str)
        ensures
            r@ == (match self {
                Language::English => "Could not open Finder"@,
                Language::SimplifiedChinese => "无法打开访达"@,
            }),
    {
        match self {
            Language::English => "Could not open Finder",
            Language::SimplifiedChinese => "无法打开访达",
        }
    }
}

} // verus!

verus! {

/// How a character of a locale identifier is normalised: `_` becomes `-`
/// and ASCII capitals become lower case.
pub open spec fn locale_char(c: char) -> char {
    if c == '_' {
        '-'
    } else if 'A' <= c <= 'Z' {
        ((c as u32) + 32) as char
    } else {
        c
    }
}

/// A locale identifier without surrounding whitespace, quotes, commas and
/// parentheses, cut at its first `.`, with `_` as `-` and in ASCII lower case.
pub open spec fn normalized_locale(value: Seq<char>) -> Seq<char> {
    let stripped = trim_by(trim(value), CharClass::ListSeparator);
    before_char(stripped, '.').map_values(|c: char| locale_char(c))
}

/// The language a single locale identifier names, if MTPDrive ships it.
/// Traditional Chinese variants are not claimed as Simplified Chinese.
pub open spec fn locale_language(value: Seq<char>) -> Option<Language> {
    let normalized = normalized_locale(value);
    let primary = before_char(normalized, '-');
    if primary == "en"@ {
        Some(Language::English)
    } else if primary == "zh"@ && !starts_with(normalized, "zh-hant"@) && !starts_with(
        normalized,
        "zh-tw"@,
    ) && !starts_with(normalized, "zh-hk"@) && !starts_with(normalized, "zh-mo"@) {
        Some(Language::SimplifiedChinese)
    } else {
        None
    }
}

/// The first supported language among the entries of a locale list, whose
/// entries are separated by ASCII whitespace, commas, quotes and parentheses.
pub open spec fn list_language(s: Seq<char>) -> Option<Language>
    decreases s.len(),
{
    if s.len() == 0 {
        None
    } else if is_list_separator(s[0]) {
        list_language(s.drop_first())
    } else {
        let token = before_class(s, CharClass::ListSeparator);
        proof {
            lemma_before_class_len(s, CharClass::ListSeparator);
        }
        match locale_language(token) {
            Some(language) => Some(language),
            None => list_language(s.subrange(token.len() as int, s.len() as int)),
        }
    }
}

/// The first supported language among several locale lists.
pub open spec fn first_listed_language(values: Seq<Seq<char>>) -> Option<Language>
    decreases values.len(),
{
    if values.len() == 0 {
        None
    } else {
        match list_language(values[0]) {
            Some(language) => Some(language),
            None => first_listed_language(values.drop_first()),
        }
    }
}

fn locale_char_of(c: char) -> (r: char)
    ensures
        r == locale_char(c),
{
    if c == '_' {
        '-'
    } else if 'A' <= c && c <= 'Z' {
        let n = c as u32;
        proof {
            assert(65 <= n <= 90);
        }
        ((n + 32) as u8) as char
    } else {
        c
    }
}

/// Parses a BCP-47 or POSIX locale identifier supported by MTPDrive.
pub fn parse_language(value: &str) -> (r: Option<Language>)
    ensures
        r == locale_language(value@),
{
    let v = chars_of(value);
    let (a, b) = trim_bounds(&v, CharClass::Whitespace);
    let t1 = vec_range(&v, a, b);
    let (c, d) = trim_bounds(&t1, CharClass::ListSeparator);
    let t2 = vec_range(&t1, c, d);
    let dot = index_of(&t2, '.');
    let mut normalized: Vec<char> = Vec::new();
    let mut i: usize = 0;
    while i < dot
        invariant
            dot <= t2@.len(),
            i <= dot,
            normalized@ == t2@.subrange(0, i as int).map_values(|c: char| locale_char(c)),
        decreases dot - i,
    {
        normalized.push(locale_char_of(t2[i]));
        i = i + 1;
        proof {
            assert(normalized@ =~= t2@.subrange(0, i as int).map_values(
                |c: char| locale_char(c),
            ));
        }
    }
    proof {
        assert(normalized@ == normalized_locale(value@));
    }
    let dash = index_of(&normalized, '-');
    let primary = vec_range(&normalized, 0, dash);
    if vec_equals(&primary, "en") {
        Some(Language::English)
    } else if vec_equals(&primary, "zh") && !vec_starts_with(&normalized, "zh-hant")
        && !vec_starts_with(&normalized, "zh-tw") && !vec_starts_with(&normalized, "zh-hk")
        && !vec_starts_with(&normalized, "zh-mo") {
        Some(Language::SimplifiedChinese)
    } else {
        None
    }
}

/// Selects the first supported entry of a locale preference list, such as
/// the output of `defaults read -g AppleLanguages`.
pub fn parse_language_list(value: &str) -> (r: Option<Language>)
    ensures
        r == list_language(value@),
{
    let v = chars_of(value);
    let n = v.len();
    let mut i: usize = 0;
    proof {
        assert(v@.subrange(0, n as int) =~= v@);
    }
    while i < n
        invariant
            n == v@.len(),
            v@ == value@,
            i <= n,
            list_language(v@.subrange(i as int, n as int)) == list_language(v@),
        decreases n - i,
    {
        let ghost rest = v@.subrange(i as int, n as int);
        if char_in_class(v[i], CharClass::ListSeparator) {
            proof {
                assert(rest[0] == v@[i as int]);
                assert(rest.drop_first() =~= v@.subrange(i + 1, n as int));
            }
            i = i + 1;
        } else {
            let mut j = i;
            while j < n && !char_in_class(v[j], CharClass::ListSeparator)
                invariant
                    n == v@.len(),
                    i <= j <= n,
                    forall|k: int| i <= k < j ==> !in_class(#[trigger] v@[k], CharClass::ListSeparator),
                decreases n - j,
            {
                j = j + 1;
            }
            proof {
                assert forall|k: int| 0 <= k < j - i implies !in_class(
                    #[trigger] rest[k],
                    CharClass::ListSeparator,
                ) by {
                    assert(rest[k] == v@[k + i]);
                }
                if j < n {
                    assert(rest[j - i] == v@[j as int]);
                }
                lemma_before_class_prefix(rest, CharClass::ListSeparator, j - i);
                assert(rest.subrange(0, j - i) =~= v@.subrange(i as int, j as int));
                assert(rest[0] == v@[i as int]);
                assert(rest.len() > 0 && !is_list_separator(rest[0]));
                assert(rest.subrange(j - i, rest.len() as int) =~= v@.subrange(j as int, n as int));
            }
            let token = string_of_range(&v, i, j);
            match parse_language(token.as_str()) {
                Some(language) => {
                    proof {
                        assert(token@ == before_class(rest, CharClass::ListSeparator));
                        assert(list_language(rest) == Some(language));
                    }
                    return Some(language);
                },
                None => {
                    i = j;
                },
            }
        }
    }
    proof {
        assert(v@.subrange(n as int, n as int).len() == 0);
    }
    None
}

/// Selects the first supported locale, falling back to English.
pub fn detect_language_from(values: &[&str]) -> (r: Language)
    ensures
        r == (match first_listed_language(values@.map_values(|s: &str| s@)) {
            Some(language) => language,
            None => Language::English,
        }),
{
    let ghost all = values@.map_values(|s: &str| s@);
    let mut i: usize = 0;
    proof {
        assert(all.subrange(0, all.len() as int) =~= all);
    }
    while i < values.len()
        invariant
            all == values@.map_values(|s: &str| s@),
            i <= values@.len(),
            first_listed_language(all) == first_listed_language(all.subrange(i as int, all.len() as int)),
        decreases values.len() - i,
    {
        let ghost rest = all.subrange(i as int, all.len() as int);
        proof {
            assert(rest[0] == values@[i as int]@);
            assert(rest.drop_first() =~= all.subrange(i + 1, all.len() as int));
        }
        if let Some(language) = parse_language_list(values[i]) {
            return language;
        }
        i = i + 1;
    }
    proof {
        assert(all.subrange(i as int, all.len() as int).len() == 0);
    }
    Language::English
}

/// The language selected for new messages, given the value kept in the
/// process-wide cell (`0` while the user has chosen none) and the language
/// detected from the system.
pub fn current_language(stored: u8, system: Language) -> (r: Language)
    ensures
        r == language_of(stored, system),
{
    match stored {
        1 => Language::English,
        2 => Language::SimplifiedChinese,
        _ => system,
    }
}

/// The value to keep in the process-wide cell when the user selects `language`.
pub fn set_current_language(language: Language) -> (r: u8)
    ensures
        r == stored_language(language),
{
    match language {
        Language::English => 1,
        Language::SimplifiedChinese => 2,
    }
}

/// The language for new messages, given the value kept in the
/// process-wide cell and the system's language.
pub open spec fn language_of(stored: u8, system: Language) -> Language {
    if stored == 1 {
        Language::English
    } else if stored == 2 {
        Language::SimplifiedChinese
    } else {
        system
    }
}

/// The value kept in the process-wide cell for a selected language.
pub open spec fn stored_language(language: Language) -> u8 {
    match language {
        Language::English => 1u8,
        Language::SimplifiedChinese => 2u8,
    }
}

/// Once a language has been selected, it is the current language whatever
/// the system language is.
pub proof fn law_selected_language_is_current(language: Language, system: Language)
    ensures
        language_of(stored_language(language), system) == language,
{
}

} // verus!
